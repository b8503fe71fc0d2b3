//! Reading interface definition files: which file and section holds the
//! constants of an interface type, and the constants that a section declares.

use vstd::prelude::*;
use crate::text::{
    all_word_chars, is_word_char, chars_of, is_space, is_word, owned, same, split, split_at_char, split_char, split_once_char,
    string_of, trim, trim_front, trimmed, views, word,
};

verus! {

/// An interface type `package/kind/name` whose three parts are words: one
/// whose definition file can be looked up.
pub open spec fn valid_interface(typ: Seq<char>) -> bool {
    let p = split_at_char(typ, '/');
    p.len() == 3 && is_word(p[0]) && is_word(p[1]) && is_word(p[2])
}

pub fn interface_parts(typ: &str) -> (r: Option<Vec<String>>)
    ensures
        match r {
            Some(p) => valid_interface(typ@) && views(p@) == split_at_char(typ@, '/'),
            None => !valid_interface(typ@),
        },
{
    let p = split(typ, '/');
    if p.len() == 3 && word(p[0].as_str()) && word(p[1].as_str()) && word(p[2].as_str()) {
        Some(p)
    } else {
        None
    }
}

/// `s` ends with `suffix`.
pub open spec fn ends_with(s: Seq<char>, suffix: Seq<char>) -> bool {
    s.len() >= suffix.len() && s.subrange(s.len() - suffix.len(), s.len() as int) == suffix
}

/// `s` without `suffix`.
pub open spec fn before_suffix(s: Seq<char>, suffix: Seq<char>) -> Seq<char> {
    s.subrange(0, s.len() - suffix.len())
}

/// The interface whose file declares the constants of type `typ`, and the
/// section of that file: a service's request and response, and an action's
/// goal, result and feedback, are sections of one file.
pub open spec fn constant_source(typ: Seq<char>) -> Option<(Seq<char>, nat)> {
    let p = split_at_char(typ, '/');
    if p.len() != 3 {
        None
    } else {
        let (base, section) = if p[1] == "srv"@ {
            if ends_with(p[2], "_Request"@) {
                (before_suffix(p[2], "_Request"@), 0nat)
            } else if ends_with(p[2], "_Response"@) {
                (before_suffix(p[2], "_Response"@), 1nat)
            } else {
                (p[2], 0nat)
            }
        } else if p[1] == "action"@ {
            if ends_with(p[2], "_Goal"@) {
                (before_suffix(p[2], "_Goal"@), 0nat)
            } else if ends_with(p[2], "_Result"@) {
                (before_suffix(p[2], "_Result"@), 1nat)
            } else if ends_with(p[2], "_Feedback"@) {
                (before_suffix(p[2], "_Feedback"@), 2nat)
            } else {
                (p[2], 0nat)
            }
        } else {
            (p[2], 0nat)
        };
        Some((p[0] + seq!['/'] + p[1] + seq!['/'] + base, section))
    }
}

proof fn lemma_word_append(a: Seq<char>, b: Seq<char>)
    requires
        is_word(a),
        all_word_chars(b),
    ensures
        is_word(a + b),
{
    assert forall|i: int| 0 <= i < (a + b).len() implies is_word_char(#[trigger] (a + b)[i]) by {
        if i < a.len() {
            assert((a + b)[i] == a[i]);
        } else {
            assert((a + b)[i] == b[i - a.len()]);
        }
    }
}

proof fn lemma_suffix(a: Seq<char>, b: Seq<char>)
    ensures
        ends_with(a + b, b),
        before_suffix(a + b, b) == a,
{
    assert((a + b).subrange(a.len() as int, (a + b).len() as int) =~= b);
    assert((a + b).subrange(0, a.len() as int) =~= a);
}

/// `pkg/kind/last` splits into its three words.
proof fn lemma_three(pkg: Seq<char>, kind: Seq<char>, last: Seq<char>)
    requires
        is_word(pkg),
        is_word(kind),
        is_word(last),
    ensures
        split_at_char(pkg + seq!['/'] + kind + seq!['/'] + last, '/') == seq![pkg, kind, last],
{
    crate::backend::lemma_split_three(pkg, kind, last);
}

/// The constants of a service's request and response come from sections 0
/// and 1 of the service's file; those of an action's goal, result and
/// feedback from sections 0, 1 and 2 of the action's file; those of a
/// message from the message's own file.
pub proof fn lemma_constant_sections(pkg: Seq<char>, name: Seq<char>)
    requires
        is_word(pkg),
        is_word(name),
    ensures
        constant_source(pkg + "/srv/"@ + name + "_Request"@) == Some((pkg + "/srv/"@ + name, 0nat)),
        constant_source(pkg + "/srv/"@ + name + "_Response"@) == Some((pkg + "/srv/"@ + name, 1nat)),
        constant_source(pkg + "/action/"@ + name + "_Goal"@) == Some((pkg + "/action/"@ + name, 0nat)),
        constant_source(pkg + "/action/"@ + name + "_Result"@) == Some((pkg + "/action/"@ + name, 1nat)),
        constant_source(pkg + "/action/"@ + name + "_Feedback"@) == Some((pkg + "/action/"@ + name, 2nat)),
        constant_source(pkg + "/msg/"@ + name) == Some((pkg + "/msg/"@ + name, 0nat)),
{
    reveal_strlit("/srv/");
    reveal_strlit("/action/");
    reveal_strlit("/msg/");
    reveal_strlit("srv");
    reveal_strlit("action");
    reveal_strlit("msg");
    reveal_strlit("_Request");
    reveal_strlit("_Response");
    reveal_strlit("_Goal");
    reveal_strlit("_Result");
    reveal_strlit("_Feedback");
    let srv = "srv"@;
    let act = "action"@;
    let msg = "msg"@;
    assert(all_word_chars(srv) && is_word(srv));
    assert(all_word_chars(act) && is_word(act));
    assert(all_word_chars(msg) && is_word(msg));
    assert(all_word_chars("_Request"@));
    assert(all_word_chars("_Response"@));
    assert(all_word_chars("_Goal"@));
    assert(all_word_chars("_Result"@));
    assert(all_word_chars("_Feedback"@));
    assert(pkg + "/srv/"@ + name =~= pkg + seq!['/'] + srv + seq!['/'] + name);
    assert(pkg + "/action/"@ + name =~= pkg + seq!['/'] + act + seq!['/'] + name);
    assert(pkg + "/msg/"@ + name =~= pkg + seq!['/'] + msg + seq!['/'] + name);
    let req = name + "_Request"@;
    let resp = name + "_Response"@;
    lemma_word_append(name, "_Request"@);
    lemma_word_append(name, "_Response"@);
    assert(pkg + "/srv/"@ + name + "_Request"@ =~= pkg + seq!['/'] + srv + seq!['/'] + req);
    assert(pkg + "/srv/"@ + name + "_Response"@ =~= pkg + seq!['/'] + srv + seq!['/'] + resp);
    lemma_three(pkg, srv, req);
    lemma_three(pkg, srv, resp);
    lemma_suffix(name, "_Request"@);
    lemma_suffix(name, "_Response"@);
    assert(resp[resp.len() - 8] == 'R');
    assert(!ends_with(resp, "_Request"@)) by {
        if ends_with(resp, "_Request"@) {
            assert(resp.subrange(resp.len() - 8, resp.len() as int)[0] == resp[resp.len() - 8]);
        }
    }
    let goal = name + "_Goal"@;
    let res = name + "_Result"@;
    let fb = name + "_Feedback"@;
    lemma_word_append(name, "_Goal"@);
    lemma_word_append(name, "_Result"@);
    lemma_word_append(name, "_Feedback"@);
    assert(pkg + "/action/"@ + name + "_Goal"@ =~= pkg + seq!['/'] + act + seq!['/'] + goal);
    assert(pkg + "/action/"@ + name + "_Result"@ =~= pkg + seq!['/'] + act + seq!['/'] + res);
    assert(pkg + "/action/"@ + name + "_Feedback"@ =~= pkg + seq!['/'] + act + seq!['/'] + fb);
    lemma_three(pkg, act, goal);
    lemma_three(pkg, act, res);
    lemma_three(pkg, act, fb);
    lemma_suffix(name, "_Goal"@);
    lemma_suffix(name, "_Result"@);
    lemma_suffix(name, "_Feedback"@);
    assert(res[res.len() - 5] == 'e');
    assert(!ends_with(res, "_Goal"@)) by {
        if ends_with(res, "_Goal"@) {
            assert(res.subrange(res.len() - 5, res.len() as int)[0] == res[res.len() - 5]);
        }
    }
    assert(fb[fb.len() - 5] == 'd');
    assert(!ends_with(fb, "_Goal"@)) by {
        if ends_with(fb, "_Goal"@) {
            assert(fb.subrange(fb.len() - 5, fb.len() as int)[0] == fb[fb.len() - 5]);
        }
    }
    assert(fb[fb.len() - 7] == 'e');
    assert(!ends_with(fb, "_Result"@)) by {
        if ends_with(fb, "_Result"@) {
            assert(fb.subrange(fb.len() - 7, fb.len() as int)[0] == fb[fb.len() - 7]);
        }
    }
    lemma_three(pkg, msg, name);
    assert(msg[0] == 'm' && srv[0] == 's' && msg.len() != act.len());
    assert(msg != srv && msg != act);
}

fn strip(s: &str, suffix: &str) -> (r: Option<String>)
    ensures
        match r {
            Some(b) => ends_with(s@, suffix@) && b@ == before_suffix(s@, suffix@),
            None => !ends_with(s@, suffix@),
        },
{
    let n = chars_of(s);
    let t = chars_of(suffix);
    if n.len() < t.len() {
        return None;
    }
    let start = n.len() - t.len();
    let mut i: usize = 0;
    while i < t.len()
        invariant
            n@ == s@,
            t@ == suffix@,
            n@.len() >= t@.len(),
            n@.len() <= usize::MAX,
            start == n@.len() - t@.len(),
            i <= t@.len(),
            forall|k: int| 0 <= k < i ==> n@[start + k] == t@[k],
        decreases t.len() - i,
    {
        if n[start + i] != t[i] {
            assert(s@.subrange(start as int, s@.len() as int)[i as int] != suffix@[i as int]);
            return None;
        }
        i = i + 1;
    }
    assert(s@.subrange(start as int, s@.len() as int) =~= suffix@);
    Some(string_of(&n, 0, start))
}

pub fn constant_source_of(typ: &str) -> (r: Option<(String, usize)>)
    ensures
        match r {
            Some((base, section)) => constant_source(typ@) == Some((base@, section as nat)),
            None => constant_source(typ@) is None,
        },
{
    let p = split(typ, '/');
    if p.len() != 3 {
        return None;
    }
    let kind = p[1].as_str();
    let name = p[2].as_str();
    let (base, section): (String, usize) = if same(kind, "srv") {
        match strip(name, "_Request") {
            Some(b) => (b, 0),
            None => match strip(name, "_Response") {
                Some(b) => (b, 1),
                None => (owned(name), 0),
            },
        }
    } else if same(kind, "action") {
        match strip(name, "_Goal") {
            Some(b) => (b, 0),
            None => match strip(name, "_Result") {
                Some(b) => (b, 1),
                None => match strip(name, "_Feedback") {
                    Some(b) => (b, 2),
                    None => (owned(name), 0),
                },
            },
        }
    } else {
        (owned(name), 0)
    };
    let mut out = owned(p[0].as_str());
    crate::text::push_char(&mut out, '/');
    crate::text::append(&mut out, kind);
    crate::text::push_char(&mut out, '/');
    crate::text::append(&mut out, base.as_str());
    assert(out@ =~= p@[0]@ + seq!['/'] + p@[1]@ + seq!['/'] + base@);
    Some((out, section))
}

/// A section separator, a line starting with `---`, begins at `j`.
pub open spec fn sep_at(s: Seq<char>, j: int) -> bool {
    0 <= j && j + 4 <= s.len() && s[j] == '\n' && s[j + 1] == '-' && s[j + 2] == '-' && s[j + 3] == '-'
}

/// `j` is the first separator at or after `from`, or the length where there is none.
pub open spec fn is_next_sep(s: Seq<char>, from: int, j: int) -> bool {
    &&& from <= j <= s.len()
    &&& (j < s.len() ==> sep_at(s, j))
    &&& forall|k: int| from <= k < j ==> !sep_at(s, k)
}

pub open spec fn next_sep(s: Seq<char>, from: int) -> int {
    choose|j: int| is_next_sep(s, from, j)
}

proof fn lemma_next_sep(s: Seq<char>, from: int, j: int)
    requires
        is_next_sep(s, from, j),
    ensures
        next_sep(s, from) == j,
{
    let k = choose|k: int| is_next_sep(s, from, k);
    if k < j {
        assert(!sep_at(s, k));
    } else if j < k {
        assert(!sep_at(s, j));
    }
}

/// The sections of `s[from..]` between separators (`str::split("\n---")`).
pub open spec fn sections(s: Seq<char>, from: int) -> Seq<Seq<char>>
    decreases s.len() - from,
{
    if from < 0 || from > s.len() {
        Seq::empty()
    } else {
        let j = next_sep(s, from);
        if from <= j < s.len() && sep_at(s, j) {
            seq![s.subrange(from, j)] + sections(s, j + 4)
        } else {
            seq![s.subrange(from, s.len() as int)]
        }
    }
}

/// Section `n` of a definition, or nothing where it has fewer sections.
pub open spec fn section(s: Seq<char>, n: nat) -> Seq<char> {
    let all = sections(s, 0);
    if n < all.len() {
        all[n as int]
    } else {
        Seq::empty()
    }
}

fn find_sep(cs: &Vec<char>, from: usize) -> (j: usize)
    requires
        from <= cs@.len(),
    ensures
        is_next_sep(cs@, from as int, j as int),
{
    let mut j = from;
    while j < cs.len()
        invariant
            from <= j <= cs@.len(),
            forall|k: int| from <= k < j ==> !sep_at(cs@, k),
        decreases cs.len() - j,
    {
        if cs.len() >= 4 && j <= cs.len() - 4 && cs[j] == '\n' && cs[j + 1] == '-' && cs[j + 2] == '-' && cs[j + 3] == '-' {
            return j;
        }
        j = j + 1;
    }
    j
}

pub fn section_of(text: &str, n: usize) -> (r: String)
    ensures
        r@ == section(text@, n as nat),
{
    let cs = chars_of(text);
    let mut start: usize = 0;
    let mut index: usize = 0;
    loop
        invariant
            cs@ == text@,
            start <= cs@.len(),
            index <= n,
            sections(cs@, 0).len() >= index,
            sections(cs@, 0).skip(index as int) == sections(cs@, start as int),
        decreases cs@.len() - start,
    {
        let j = find_sep(&cs, start);
        proof {
            lemma_next_sep(cs@, start as int, j as int);
        }
        let ghost rest = sections(cs@, start as int);
        if j < cs.len() {
            assert(rest == seq![cs@.subrange(start as int, j as int)] + sections(cs@, j + 4));
            if index == n {
                assert(sections(cs@, 0)[n as int] == rest[0]);
                return string_of(&cs, start, j);
            }
            assert(sections(cs@, 0).skip(index + 1) =~= rest.drop_first());
            assert(rest.drop_first() =~= sections(cs@, j + 4));
            start = j + 4;
            index = index + 1;
        } else {
            assert(rest == seq![cs@.subrange(start as int, cs@.len() as int)]);
            if index == n {
                assert(sections(cs@, 0)[n as int] == rest[0]);
                return string_of(&cs, start, cs.len());
            }
            assert(sections(cs@, 0).len() == index + 1);
            return String::new();
        }
    }
}

/// The position of the first whitespace character of `s`, or its length.
pub open spec fn first_space(s: Seq<char>) -> int
    decreases s.len(),
{
    if s.len() == 0 {
        0
    } else if is_space(s[0]) {
        0
    } else {
        1 + first_space(s.drop_first())
    }
}

proof fn lemma_first_space(s: Seq<char>)
    ensures
        0 <= first_space(s) <= s.len(),
        first_space(s) < s.len() ==> is_space(s[first_space(s)]),
        forall|k: int| 0 <= k < first_space(s) ==> !is_space(#[trigger] s[k]),
    decreases s.len(),
{
    if s.len() > 0 && !is_space(s[0]) {
        lemma_first_space(s.drop_first());
        assert forall|k: int| 0 <= k < first_space(s) implies !is_space(#[trigger] s[k]) by {
            if k > 0 {
                assert(s[k] == s.drop_first()[k - 1]);
            }
        }
    }
}

/// The two words of a declaration's left side (`split_whitespace` giving
/// exactly two): the type and the constant's name.
pub open spec fn two_words(field: Seq<char>) -> Option<(Seq<char>, Seq<char>)> {
    let f = trimmed(field);
    let j = first_space(f);
    if j >= f.len() {
        None
    } else {
        let rest = trim_front(f.skip(j));
        if first_space(rest) < rest.len() {
            None
        } else {
            Some((f.take(j), rest))
        }
    }
}

fn space_at(cs: &Vec<char>) -> (j: usize)
    ensures
        j == first_space(cs@),
{
    proof {
        lemma_first_space(cs@);
    }
    let mut j: usize = 0;
    while j < cs.len() && !crate::text::space(cs[j])
        invariant
            j <= cs@.len(),
            forall|k: int| 0 <= k < j ==> !is_space(cs@[k]),
            0 <= first_space(cs@) <= cs@.len(),
            first_space(cs@) < cs@.len() ==> is_space(cs@[first_space(cs@)]),
            forall|k: int| 0 <= k < first_space(cs@) ==> !is_space(#[trigger] cs@[k]),
        decreases cs.len() - j,
    {
        j = j + 1;
    }
    j
}

fn words_of(field: &str) -> (r: Option<(String, String)>)
    ensures
        match r {
            Some((a, b)) => two_words(field@) == Some((a@, b@)),
            None => two_words(field@) is None,
        },
{
    let f = trim(field);
    let cs = chars_of(f.as_str());
    let j = space_at(&cs);
    if j >= cs.len() {
        return None;
    }
    let tail = string_of(&cs, j, cs.len());
    assert(tail@ =~= f@.skip(j as int));
    let rest = crate::text::trim_start(tail.as_str());
    let rc = chars_of(rest.as_str());
    let k = space_at(&rc);
    if k < rc.len() {
        return None;
    }
    let first = string_of(&cs, 0, j);
    assert(first@ =~= f@.take(j as int));
    Some((first, rest))
}

/// `s` without leading and trailing quote characters (`trim_matches(['\'', '"'])`).
pub open spec fn unquoted(s: Seq<char>) -> Seq<char>
    decreases s.len(),
{
    if s.len() > 0 && (s[0] == '\'' || s[0] == '"') {
        unquoted(s.drop_first())
    } else if s.len() > 0 && (s.last() == '\'' || s.last() == '"') {
        unquoted(s.drop_last())
    } else {
        s
    }
}

pub(crate) fn unquote(s: &str) -> (r: String)
    ensures
        r@ == unquoted(s@),
{
    let cs = chars_of(s);
    let mut i: usize = 0;
    let mut j: usize = cs.len();
    assert(cs@.subrange(0, cs@.len() as int) =~= s@);
    while i < j && (cs[i] == '\'' || cs[i] == '"')
        invariant
            cs@ == s@,
            i <= j == cs@.len(),
            unquoted(s@) == unquoted(cs@.subrange(i as int, j as int)),
        decreases j - i,
    {
        assert(cs@.subrange(i as int, j as int).drop_first() =~= cs@.subrange(i + 1, j as int));
        i = i + 1;
    }
    while i < j && (cs[j - 1] == '\'' || cs[j - 1] == '"')
        invariant
            cs@ == s@,
            i <= j <= cs@.len(),
            i < j ==> !(cs@[i as int] == '\'' || cs@[i as int] == '"'),
            unquoted(s@) == unquoted(cs@.subrange(i as int, j as int)),
        decreases j - i,
    {
        assert(cs@.subrange(i as int, j as int).drop_last() =~= cs@.subrange(i as int, j - 1));
        j = j - 1;
    }
    string_of(&cs, i, j)
}

/// The text before the first `#` (`split('#').next()`).
pub open spec fn before_hash(s: Seq<char>) -> Seq<char> {
    match split_char(s, '#') {
        Some((a, _)) => a,
        None => s,
    }
}

/// The constant that one line of a definition declares, if it declares one:
/// `<type> <NAME>=<value>`, where the value of a string constant loses its
/// quotes and that of any other constant its trailing comment.
pub open spec fn constant_line(line: Seq<char>) -> Option<(Seq<char>, Seq<char>)> {
    let t = trimmed(line);
    if t.len() > 0 && t[0] == '#' {
        None
    } else {
        match split_char(t, '=') {
            None => None,
            Some((field, value)) => match two_words(field) {
                None => None,
                Some((kind, name)) => Some((
                    name,
                    if kind == "string"@ { unquoted(trimmed(value)) } else { trimmed(before_hash(value)) },
                )),
            },
        }
    }
}

fn constant_of(line: &str) -> (r: Option<(String, String)>)
    ensures
        match r {
            Some((n, v)) => constant_line(line@) == Some((n@, v@)),
            None => constant_line(line@) is None,
        },
{
    let t = trim(line);
    let cs = chars_of(t.as_str());
    if cs.len() > 0 && cs[0] == '#' {
        return None;
    }
    let (field, value) = match split_once_char(t.as_str(), '=') {
        Some(p) => p,
        None => return None,
    };
    let (kind, name) = match words_of(field.as_str()) {
        Some(w) => w,
        None => return None,
    };
    let v = if same(kind.as_str(), "string") {
        unquote(trim(value.as_str()).as_str())
    } else {
        let before = match split_once_char(value.as_str(), '#') {
            Some((a, _)) => a,
            None => value,
        };
        trim(before.as_str())
    };
    Some((name, v))
}

/// The constants that the lines of a section declare, in order.
pub open spec fn constants_in(lines: Seq<Seq<char>>) -> Seq<(Seq<char>, Seq<char>)>
    decreases lines.len(),
{
    if lines.len() == 0 {
        Seq::empty()
    } else {
        match constant_line(lines.last()) {
            Some(c) => constants_in(lines.drop_last()).push(c),
            None => constants_in(lines.drop_last()),
        }
    }
}

/// The constants that section `n` of a definition declares, in order of
/// declaration; where a name is declared twice, the later one counts.
pub fn constants(text: &str, n: usize) -> (r: Vec<(String, String)>)
    ensures
        Seq::new(r@.len(), |i: int| (r@[i].0@, r@[i].1@)) == constants_in(split_at_char(section(text@, n as nat), '\n')),
{
    let body = section_of(text, n);
    let lines = split(body.as_str(), '\n');
    let ghost lv = views(lines@);
    let mut out: Vec<(String, String)> = Vec::new();
    let mut i: usize = 0;
    while i < lines.len()
        invariant
            i <= lines@.len(),
            lv == views(lines@),
            Seq::new(out@.len(), |k: int| (out@[k].0@, out@[k].1@)) == constants_in(lv.take(i as int)),
        decreases lines.len() - i,
    {
        assert(lv.take(i + 1).drop_last() =~= lv.take(i as int));
        assert(lv.take(i + 1).last() == lines@[i as int]@);
        let ghost before = Seq::new(out@.len(), |k: int| (out@[k].0@, out@[k].1@));
        match constant_of(lines[i].as_str()) {
            Some(c) => {
                let ghost cv = (c.0@, c.1@);
                out.push(c);
                assert(Seq::new(out@.len(), |k: int| (out@[k].0@, out@[k].1@)) =~= before.push(cv));
            },
            None => {},
        }
        i = i + 1;
    }
    assert(lv.take(i as int) =~= lv);
    out
}

} // verus!
