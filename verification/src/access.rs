//! Shared allowlists for WebSocket forwarding and native rosapi discovery.

use vstd::prelude::*;
use crate::assembly::part_views;
use crate::error::Error;
use crate::json::Json;
use crate::text::{
    after_last, append, has_char, last_segment, owned, same, split, split_at_char, split_char,
    split_once_char, split_once_pair, split_pair, trim, trimmed, views, is_next, lemma_next_index,
};

verus! {

#[verifier::external_type_specification]
#[verifier::external_body]
pub struct ExPattern(glob::Pattern);

/// What compiling `pattern` as a glob reports: nothing where it compiles, the
/// error's text where it does not (`glob::Pattern::new`).
pub uninterp spec fn glob_compiled(pattern: Seq<char>) -> Option<Seq<char>>;

/// Whether the glob `pattern` matches `name` with the default options
/// (`glob::Pattern::matches`).
pub uninterp spec fn glob_matches(pattern: Seq<char>, name: Seq<char>) -> bool;

/// What the TOML document `doc` holds under `key`, as strings: nothing where
/// `doc` does not parse as a table, `Some(None)` where `key` is missing or
/// not an array, else each item's text where it is a string
/// (`toml::from_str::<toml::Table>`).
pub uninterp spec fn toml_strings(doc: Seq<char>, key: Seq<char>) -> Option<Option<Seq<Option<Seq<char>>>>>;

/// Calls `glob::Pattern::new`; its error comes back as the error's text.
#[verifier::external_body]
fn compile_glob(source: &str) -> (r: Result<glob::Pattern, String>)
    ensures
        r is Ok <==> glob_compiled(source@) is None,
        r matches Err(e) ==> glob_compiled(source@) == Some(e@),
{
    match glob::Pattern::new(source) {
        Ok(p) => Ok(p),
        Err(e) => Err(e.to_string()),
    }
}

/// Calls `glob::Pattern::matches` on the pattern that `g` was compiled to.
/// The contract rests on `g.compiled` having come from `glob::Pattern::new` on
/// `g.source`, which the private fields of `Glob` and its constructor ensure.
#[verifier::external_body]
fn pattern_matches(g: &Glob, name: &str) -> (r: bool)
    ensures
        r == glob_matches(g@, name@),
{
    g.compiled.matches(name)
}

/// Calls `Clone::clone` on a compiled glob; nothing is stated of the copy,
/// which `Glob::copy` pairs with the same source.
#[verifier::external_body]
fn clone_pattern(p: &glob::Pattern) -> glob::Pattern {
    p.clone()
}

/// Parses `doc` with `toml::from_str::<toml::Table>` and reads the array
/// under `key`, telling strings from other items.
#[verifier::external_body]
fn toml_array(doc: &str, key: &str) -> (r: Option<Option<Vec<Option<String>>>>)
    ensures
        match r {
            None => toml_strings(doc@, key@) is None,
            Some(None) => toml_strings(doc@, key@) == Some(None::<Seq<Option<Seq<char>>>>),
            Some(Some(items)) => toml_strings(doc@, key@) == Some(Some(part_views(items@))),
        },
{
    let table = toml::from_str::<toml::Table>(doc).ok()?;
    match table.get(key) {
        Some(toml::Value::Array(items)) => Some(Some(items.iter().map(|item| match item {
            toml::Value::String(s) => Some(s.clone()),
            _ => None,
        }).collect())),
        _ => Some(None),
    }
}

/// A compiled glob pattern together with its text.
pub struct Glob {
    source: String,
    compiled: glob::Pattern,
}

impl View for Glob {
    type V = Seq<char>;

    closed spec fn view(&self) -> Seq<char> {
        self.source@
    }
}

impl Glob {
    /// Compiles `source`; the error is the glob crate's text for it.
    pub fn new(source: &str) -> (r: Result<Glob, Error>)
        ensures
            r is Ok <==> glob_compiled(source@) is None,
            r matches Ok(g) ==> g@ == source@,
            r matches Err(e) ==> glob_compiled(source@) == Some(e.message@),
    {
        match compile_glob(source) {
            Ok(compiled) => Ok(Glob { source: owned(source), compiled }),
            Err(message) => Err(Error { message }),
        }
    }

    /// Whether the pattern matches `name`.
    pub fn matches(&self, name: &str) -> (r: bool)
        ensures
            r == glob_matches(self@, name@),
    {
        pattern_matches(self, name)
    }

    pub fn copy(&self) -> (r: Glob)
        ensures
            r@ == self@,
    {
        Glob { source: self.source.clone(), compiled: clone_pattern(&self.compiled) }
    }

    /// The pattern's text.
    pub fn text(&self) -> (r: &str)
        ensures
            r@ == self@,
    {
        self.source.as_str()
    }
}

/// The texts of a list of globs.
pub open spec fn glob_views(v: Seq<Glob>) -> Seq<Seq<char>> {
    Seq::new(v.len(), |i: int| v[i]@)
}

/// The texts of an optional list of globs.
pub open spec fn list_view(v: Option<Vec<Glob>>) -> Option<Seq<Seq<char>>> {
    match v {
        Some(l) => Some(glob_views(l@)),
        None => None,
    }
}

/// Allowlists of glob patterns; an absent list allows every name.
pub struct Access {
    pub pub_topics: Option<Vec<Glob>>,
    pub sub_topics: Option<Vec<Glob>>,
    pub services: Option<Vec<Glob>>,
    pub params: Option<Vec<Glob>>,
}

/// The pattern texts of an [`Access`].
pub struct AccessV {
    pub pub_topics: Option<Seq<Seq<char>>>,
    pub sub_topics: Option<Seq<Seq<char>>>,
    pub services: Option<Seq<Seq<char>>>,
    pub params: Option<Seq<Seq<char>>>,
}

impl View for Access {
    type V = AccessV;

    open spec fn view(&self) -> AccessV {
        AccessV {
            pub_topics: list_view(self.pub_topics),
            sub_topics: list_view(self.sub_topics),
            services: list_view(self.services),
            params: list_view(self.params),
        }
    }
}

/// `name` passes `patterns`: there is no list, or some pattern matches.
pub open spec fn allowed(patterns: Option<Seq<Seq<char>>>, name: Seq<char>) -> bool {
    match patterns {
        None => true,
        Some(ps) => exists|i: int| 0 <= i < ps.len() && glob_matches(#[trigger] ps[i], name),
    }
}

/// Whether `patterns` lets `name` through.
pub fn matches(patterns: &Option<Vec<Glob>>, name: &str) -> (r: bool)
    ensures
        r == allowed(list_view(*patterns), name@),
{
    match patterns {
        None => true,
        Some(ps) => {
            let ghost v = glob_views(ps@);
            let mut i: usize = 0;
            while i < ps.len()
                invariant
                    i <= ps@.len(),
                    v == glob_views(ps@),
                    list_view(*patterns) == Some(v),
                    forall|k: int| 0 <= k < i ==> !glob_matches(#[trigger] v[k], name@),
                decreases ps.len() - i,
            {
                if ps[i].matches(name) {
                    proof {
                        let o: Option<Seq<Seq<char>>> = Some(v);
                        let nm: Seq<char> = name@;
                        assert(o matches Some(p) && p == v);
                        assert(v[i as int] == ps@[i as int]@);
                        assert(exists|k: int| 0 <= k < v.len() && glob_matches(#[trigger] v[k], nm));
                        assert(allowed(o, nm) == exists|k: int| 0 <= k < v.len() && glob_matches(#[trigger] v[k], nm));
                    }
                    return true;
                }
                i = i + 1;
            }
            false
        },
    }
}

/// The services that read or write parameters of a node directly.
pub open spec fn is_raw_parameter_service(typ: Seq<char>) -> bool {
    ||| typ == "rcl_interfaces/srv/GetParameters"@
    ||| typ == "rcl_interfaces/srv/GetParameterTypes"@
    ||| typ == "rcl_interfaces/srv/SetParameters"@
    ||| typ == "rcl_interfaces/srv/SetParametersAtomically"@
    ||| typ == "rcl_interfaces/srv/ListParameters"@
    ||| typ == "rcl_interfaces/srv/DescribeParameters"@
}

/// The parameter services of rosapi.
pub open spec fn is_rosapi_parameter_service(typ: Seq<char>) -> bool {
    ||| typ == "rosapi_msgs/srv/GetParam"@
    ||| typ == "rosapi_msgs/srv/SetParam"@
    ||| typ == "rosapi_msgs/srv/HasParam"@
    ||| typ == "rosapi_msgs/srv/DeleteParam"@
    ||| typ == "rosapi_msgs/srv/GetParamNames"@
}

pub fn raw_parameter_service(typ: &str) -> (r: bool)
    ensures
        r == is_raw_parameter_service(typ@),
{
    same(typ, "rcl_interfaces/srv/GetParameters") || same(typ, "rcl_interfaces/srv/GetParameterTypes")
        || same(typ, "rcl_interfaces/srv/SetParameters") || same(typ, "rcl_interfaces/srv/SetParametersAtomically")
        || same(typ, "rcl_interfaces/srv/ListParameters") || same(typ, "rcl_interfaces/srv/DescribeParameters")
}

pub fn rosapi_parameter_service(typ: &str) -> (r: bool)
    ensures
        r == is_rosapi_parameter_service(typ@),
{
    same(typ, "rosapi_msgs/srv/GetParam") || same(typ, "rosapi_msgs/srv/SetParam") || same(typ, "rosapi_msgs/srv/HasParam")
        || same(typ, "rosapi_msgs/srv/DeleteParam") || same(typ, "rosapi_msgs/srv/GetParamNames")
}

/// `a` followed by `b`.
fn joined(a: &str, b: &str) -> (r: String)
    ensures
        r@ == a@ + b@,
{
    let mut r = owned(a);
    append(&mut r, b);
    r
}

} // verus!

verus! {

/// The flags that introduce a ROS parameter argument.
pub open spec fn is_param_flag(a: Seq<char>) -> bool {
    a == "-p"@ || a == "--param"@
}

/// The value that argument pair `(args[i], args[i + 1])` gives setting `name`:
/// `-p [<node>:]<name>:=<value>`.
pub open spec fn pair_value(args: Seq<Seq<char>>, i: int, name: Seq<char>) -> Option<Seq<char>> {
    if is_param_flag(args[i]) {
        match split_pair(args[i + 1], ':', '=') {
            Some((key, value)) => if after_last(key, ':') == name {
                Some(value)
            } else {
                None
            },
            None => None,
        }
    } else {
        None
    }
}

/// The value given `name` by the last of the first `n` argument pairs that gives one.
pub open spec fn last_value(args: Seq<Seq<char>>, name: Seq<char>, n: int) -> Option<Seq<char>>
    decreases n,
{
    if n <= 0 {
        None
    } else {
        match pair_value(args, n - 1, name) {
            Some(v) => Some(v),
            None => last_value(args, name, n - 1),
        }
    }
}

/// The value that the arguments give setting `name`; the last one wins.
pub open spec fn param_value(args: Seq<Seq<char>>, name: Seq<char>) -> Option<Seq<char>> {
    last_value(args, name, args.len() - 1)
}

/// The patterns of a YAML flow list `[a, b]` without quotes.
pub open spec fn flow_list(value: Seq<char>, name: Seq<char>) -> Result<Seq<Seq<char>>, Seq<char>> {
    let t = trimmed(value);
    if !(t.len() >= 2 && t[0] == '[' && t.last() == ']') {
        Err(name + " must be an array of glob strings"@)
    } else {
        let inner = t.subrange(1, t.len() - 1);
        if has_char(inner, '\'') || has_char(inner, '"') {
            Err("invalid quoted glob array for "@ + name)
        } else if trimmed(inner).len() == 0 {
            Ok(Seq::empty())
        } else {
            Ok(split_at_char(inner, ',').map_values(|p: Seq<char>| trimmed(p)))
        }
    }
}

/// The pattern texts of a setting's value: a TOML array of strings, or else a flow list.
pub open spec fn pattern_texts(value: Seq<char>, name: Seq<char>) -> Result<Seq<Seq<char>>, Seq<char>> {
    match toml_strings("patterns = "@ + value, "patterns"@) {
        Some(None) => Err("expected an array of glob strings"@),
        Some(Some(items)) => if exists|i: int| 0 <= i < items.len() && #[trigger] items[i] is None {
            Err("expected a glob string"@)
        } else {
            Ok(items.map_values(|o: Option<Seq<char>>| o->0))
        },
        None => flow_list(value, name),
    }
}

/// The error of the first of the first `n` patterns that does not compile.
pub open spec fn glob_error(ps: Seq<Seq<char>>, n: int) -> Option<Seq<char>>
    decreases n,
{
    if n <= 0 {
        None
    } else {
        match glob_error(ps, n - 1) {
            Some(e) => Some(e),
            None => glob_compiled(ps[n - 1]),
        }
    }
}

/// The allowlist that the arguments give setting `name`: none where no argument
/// sets it.
pub open spec fn setting(args: Seq<Seq<char>>, name: Seq<char>) -> Result<Option<Seq<Seq<char>>>, Seq<char>> {
    match param_value(args, name) {
        None => Ok(None),
        Some(v) => match pattern_texts(v, name) {
            Err(e) => Err(e),
            Ok(ps) => match glob_error(ps, ps.len() as int) {
                Some(e) => Err(e),
                None => Ok(Some(ps)),
            },
        },
    }
}

/// A topic list with the `topics_glob` patterns after its own.
pub open spec fn merged(specific: Option<Seq<Seq<char>>>, legacy: Option<Seq<Seq<char>>>) -> Option<Seq<Seq<char>>> {
    match specific {
        None => legacy,
        Some(ps) => Some(
            ps + match legacy {
                Some(l) => l,
                None => Seq::empty(),
            },
        ),
    }
}

/// The allowlists that ROS arguments give, or the first error.
pub open spec fn access_of(args: Seq<Seq<char>>) -> Result<AccessV, Seq<char>> {
    match (
        setting(args, "topics_glob"@),
        setting(args, "topics_pub_glob"@),
        setting(args, "topics_sub_glob"@),
        setting(args, "services_glob"@),
        setting(args, "params_glob"@),
    ) {
        (Err(e), _, _, _, _) => Err(e),
        (Ok(_), Err(e), _, _, _) => Err(e),
        (Ok(_), Ok(_), Err(e), _, _) => Err(e),
        (Ok(_), Ok(_), Ok(_), Err(e), _) => Err(e),
        (Ok(_), Ok(_), Ok(_), Ok(_), Err(e)) => Err(e),
        (Ok(legacy), Ok(p), Ok(s), Ok(services), Ok(params)) => Ok(
            AccessV { pub_topics: merged(p, legacy), sub_topics: merged(s, legacy), services, params },
        ),
    }
}

/// The value that argument pair `i` gives setting `name`.
fn pair_setting(args: &Vec<String>, i: usize, name: &str) -> (r: Option<String>)
    requires
        i + 1 < args@.len(),
    ensures
        match r {
            Some(v) => pair_value(views(args@), i as int, name@) == Some(v@),
            None => pair_value(views(args@), i as int, name@) is None,
        },
{
    let flag = args[i].as_str();
    if !(same(flag, "-p") || same(flag, "--param")) {
        return None;
    }
    let count = args.len();
    let next = i + 1;
    match split_once_pair(args[next].as_str(), ':', '=') {
        Some((key, value)) => {
            let last = last_segment(key.as_str(), ':');
            if same(last.as_str(), name) {
                Some(value)
            } else {
                None
            }
        },
        None => None,
    }
}

/// The value that the arguments give setting `name`; the last one wins.
pub fn param(args: &Vec<String>, name: &str) -> (r: Option<String>)
    ensures
        match r {
            Some(v) => param_value(views(args@), name@) == Some(v@),
            None => param_value(views(args@), name@) is None,
        },
{
    let ghost a = views(args@);
    let mut found: Option<String> = None;
    if args.len() < 2 {
        return None;
    }
    let pairs = args.len() - 1;
    let mut i: usize = 0;
    while i < pairs
        invariant
            pairs == args@.len() - 1,
            a == views(args@),
            i <= pairs,
            match found {
                Some(v) => last_value(a, name@, i as int) == Some(v@),
                None => last_value(a, name@, i as int) is None,
            },
        decreases pairs - i,
    {
        match pair_setting(args, i, name) {
            Some(v) => found = Some(v),
            None => {},
        }
        i = i + 1;
    }
    found
}

/// The patterns of a flow list.
fn flow_patterns(value: &str, name: &str) -> (r: Result<Vec<String>, Error>)
    ensures
        match r {
            Ok(v) => flow_list(value@, name@) == Ok::<Seq<Seq<char>>, Seq<char>>(views(v@)),
            Err(e) => flow_list(value@, name@) == Err::<Seq<Seq<char>>, Seq<char>>(e.message@),
        },
{
    let t = trim(value);
    let cs = crate::text::chars_of(t.as_str());
    let n = cs.len();
    if !(n >= 2 && cs[0] == '[' && cs[n - 1] == ']') {
        return Err(Error::new(joined(name, " must be an array of glob strings").as_str()));
    }
    let inner = crate::text::string_of(&cs, 1, n - 1);
    let inner_cs = crate::text::chars_of(inner.as_str());
    let quote = crate::text::find_char(&inner_cs, 0, '\'');
    let dquote = crate::text::find_char(&inner_cs, 0, '"');
    proof {
        if quote < inner_cs.len() {
            assert(has_char(inner@, '\''));
        } else {
            assert(!has_char(inner@, '\''));
        }
        if dquote < inner_cs.len() {
            assert(has_char(inner@, '"'));
        } else {
            assert(!has_char(inner@, '"'));
        }
    }
    if quote < inner_cs.len() || dquote < inner_cs.len() {
        return Err(Error::new(joined("invalid quoted glob array for ", name).as_str()));
    }
    let t_inner = trim(inner.as_str());
    if crate::text::chars_of(t_inner.as_str()).len() == 0 {
        let r: Vec<String> = Vec::new();
        assert(views(r@) =~= Seq::<Seq<char>>::empty());
        return Ok(r);
    }
    assert(t_inner@.len() != 0);
    let pieces = split(inner.as_str(), ',');
    let mut out: Vec<String> = Vec::new();
    let mut i: usize = 0;
    while i < pieces.len()
        invariant
            i <= pieces@.len(),
            out@.len() == i,
            forall|k: int| 0 <= k < i ==> #[trigger] out@[k]@ == trimmed(pieces@[k]@),
        decreases pieces.len() - i,
    {
        out.push(trim(pieces[i].as_str()));
        i = i + 1;
    }
    assert(views(out@) =~= split_at_char(inner@, ',').map_values(|p: Seq<char>| trimmed(p)));
    Ok(out)
}

/// The pattern texts of a setting's value.
fn patterns_of(value: &str, name: &str) -> (r: Result<Vec<String>, Error>)
    ensures
        match r {
            Ok(v) => pattern_texts(value@, name@) == Ok::<Seq<Seq<char>>, Seq<char>>(views(v@)),
            Err(e) => pattern_texts(value@, name@) == Err::<Seq<Seq<char>>, Seq<char>>(e.message@),
        },
{
    let doc = joined("patterns = ", value);
    match toml_array(doc.as_str(), "patterns") {
        None => flow_patterns(value, name),
        Some(None) => Err(Error::new("expected an array of glob strings")),
        Some(Some(items)) => {
            let ghost iv = part_views(items@);
            let mut out: Vec<String> = Vec::new();
            let mut i: usize = 0;
            while i < items.len()
                invariant
                    iv == part_views(items@),
                    toml_strings("patterns = "@ + value@, "patterns"@) == Some(Some(iv)),
                    i <= items@.len(),
                    out@.len() == i,
                    forall|k: int| 0 <= k < i ==> #[trigger] iv[k] is Some && out@[k]@ == iv[k]->0,
                decreases items.len() - i,
            {
                match &items[i] {
                    Some(t) => out.push(owned(t.as_str())),
                    None => {
                        assert(iv[i as int] is None);
                        return Err(Error::new("expected a glob string"));
                    },
                }
                i = i + 1;
            }
            assert(views(out@) =~= iv.map_values(|o: Option<Seq<char>>| o->0));
            Ok(out)
        },
    }
}

/// The first error stays the first error as more patterns follow.
proof fn lemma_glob_error_stays(ps: Seq<Seq<char>>, n: int, m: int)
    requires
        0 <= n <= m,
        glob_error(ps, n) is Some,
    ensures
        glob_error(ps, m) == glob_error(ps, n),
    decreases m - n,
{
    if n < m {
        lemma_glob_error_stays(ps, n, m - 1);
    }
}

/// Compiles every pattern, stopping at the first that does not compile.
pub(crate) fn compile_all(texts: &Vec<String>) -> (r: Result<Vec<Glob>, Error>)
    ensures
        match r {
            Ok(v) => glob_error(views(texts@), texts@.len() as int) is None && glob_views(v@) == views(texts@),
            Err(e) => glob_error(views(texts@), texts@.len() as int) == Some(e.message@),
        },
{
    let ghost tv = views(texts@);
    let mut out: Vec<Glob> = Vec::new();
    let mut i: usize = 0;
    while i < texts.len()
        invariant
            tv == views(texts@),
            i <= texts@.len(),
            out@.len() == i,
            glob_error(tv, i as int) is None,
            forall|k: int| 0 <= k < i ==> #[trigger] out@[k]@ == tv[k],
        decreases texts.len() - i,
    {
        match Glob::new(texts[i].as_str()) {
            Ok(g) => out.push(g),
            Err(e) => {
                proof {
                    lemma_glob_error_stays(tv, i + 1, texts@.len() as int);
                }
                return Err(e);
            },
        }
        i = i + 1;
    }
    assert(glob_views(out@) =~= tv);
    Ok(out)
}

/// The allowlist that the arguments give setting `name`.
fn setting_of(args: &Vec<String>, name: &str) -> (r: Result<Option<Vec<Glob>>, Error>)
    ensures
        match r {
            Ok(v) => setting(views(args@), name@) == Ok::<Option<Seq<Seq<char>>>, Seq<char>>(list_view(v)),
            Err(e) => setting(views(args@), name@) == Err::<Option<Seq<Seq<char>>>, Seq<char>>(e.message@),
        },
{
    match param(args, name) {
        None => Ok(None),
        Some(value) => {
            let texts = patterns_of(value.as_str(), name)?;
            let globs = compile_all(&texts)?;
            Ok(Some(globs))
        },
    }
}

/// A copy of an optional list of globs.
fn copy_list(l: &Option<Vec<Glob>>) -> (r: Option<Vec<Glob>>)
    ensures
        list_view(r) == list_view(*l),
{
    match l {
        None => None,
        Some(v) => {
            let mut out: Vec<Glob> = Vec::new();
            let mut i: usize = 0;
            while i < v.len()
                invariant
                    i <= v@.len(),
                    out@.len() == i,
                    forall|k: int| 0 <= k < i ==> #[trigger] out@[k]@ == v@[k]@,
                decreases v.len() - i,
            {
                out.push(v[i].copy());
                i = i + 1;
            }
            assert(glob_views(out@) =~= glob_views(v@));
            Some(out)
        },
    }
}

/// `specific` with the `topics_glob` patterns after its own.
pub(crate) fn merge(specific: Option<Vec<Glob>>, legacy: &Option<Vec<Glob>>) -> (r: Option<Vec<Glob>>)
    ensures
        list_view(r) == merged(list_view(specific), list_view(*legacy)),
{
    match specific {
        None => copy_list(legacy),
        Some(mut patterns) => {
            let extra = copy_list(legacy);
            let ghost first = glob_views(patterns@);
            match extra {
                Some(mut more) => {
                    let ghost second = glob_views(more@);
                    patterns.append(&mut more);
                    assert(glob_views(patterns@) =~= first + second);
                },
                None => {
                    assert(first + Seq::<Seq<char>>::empty() =~= first);
                },
            }
            Some(patterns)
        },
    }
}

impl Default for Access {
    /// No allowlists: every name passes.
    fn default() -> (a: Access)
        ensures
            a@ == (AccessV { pub_topics: None, sub_topics: None, services: None, params: None }),
    {
        Access { pub_topics: None, sub_topics: None, services: None, params: None }
    }
}

/// The reply to a check that `name` passes the list called `setting`.
pub open spec fn denial(ok: bool, setting: Seq<char>, name: Seq<char>) -> Result<(), Seq<char>> {
    if ok {
        Ok(())
    } else {
        Err(setting + " denies "@ + name)
    }
}

/// What checking topic `name` for publishing or subscribing gives.
pub open spec fn topic_check(a: AccessV, name: Seq<char>, publish: bool) -> Result<(), Seq<char>> {
    if publish {
        denial(allowed(a.pub_topics, name), "topics_pub_glob"@, name)
    } else {
        denial(allowed(a.sub_topics, name), "topics_sub_glob"@, name)
    }
}

/// What checking service `name` gives.
pub open spec fn service_check(a: AccessV, name: Seq<char>) -> Result<(), Seq<char>> {
    denial(allowed(a.services, name), "services_glob"@, name)
}

/// What checking action `name` gives: its three services, then its two topics.
pub open spec fn action_check(a: AccessV, name: Seq<char>, advertise: bool) -> Result<(), Seq<char>> {
    let base = name + "/_action/"@;
    if service_check(a, base + "send_goal"@) is Err {
        service_check(a, base + "send_goal"@)
    } else if service_check(a, base + "get_result"@) is Err {
        service_check(a, base + "get_result"@)
    } else if service_check(a, base + "cancel_goal"@) is Err {
        service_check(a, base + "cancel_goal"@)
    } else if topic_check(a, base + "feedback"@, advertise) is Err {
        topic_check(a, base + "feedback"@, advertise)
    } else {
        topic_check(a, base + "status"@, advertise)
    }
}

/// What checking a call of a service of type `typ` with arguments `args` gives
/// under the parameter allowlist.
pub open spec fn parameter_check(a: AccessV, typ: Seq<char>, args: crate::json::JsonV) -> Result<(), Seq<char>> {
    if a.params is None {
        Ok(())
    } else if is_raw_parameter_service(typ) {
        Err("params_glob restricts raw parameter services; use /rosapi parameter services"@)
    } else if is_rosapi_parameter_service(typ) && typ != "rosapi_msgs/srv/GetParamNames"@ {
        match args.text_at("name"@) {
            None => Err("parameter name must be a string"@),
            Some(full) => match split_char(full, ':') {
                None => Err("expected <node_name>:<param_name>"@),
                Some((_, name)) => denial(allowed(a.params, name), "params_glob"@, name),
            },
        }
    } else {
        Ok(())
    }
}

/// What checking that clients may offer a service of type `typ` gives.
pub open spec fn advertise_check(a: AccessV, typ: Seq<char>) -> Result<(), Seq<char>> {
    if a.params is None || (!is_raw_parameter_service(typ) && !is_rosapi_parameter_service(typ)) {
        Ok(())
    } else {
        Err("params_glob forbids client-advertised parameter services"@)
    }
}

/// The unit result of a check, as its model.
pub open spec fn check_view(r: Result<(), Error>) -> Result<(), Seq<char>> {
    match r {
        Ok(()) => Ok(()),
        Err(e) => Err(e.message@),
    }
}

impl Access {
    /// Reads the allowlists from ROS arguments `-p <name>:=<value>`.
    pub fn from_ros_args(args: &Vec<String>) -> (r: Result<Access, Error>)
        ensures
            match r {
                Ok(a) => access_of(views(args@)) == Ok::<AccessV, Seq<char>>(a@),
                Err(e) => access_of(views(args@)) == Err::<AccessV, Seq<char>>(e.message@),
            },
    {
        let legacy = setting_of(args, "topics_glob")?;
        let pub_specific = setting_of(args, "topics_pub_glob")?;
        let sub_specific = setting_of(args, "topics_sub_glob")?;
        let services = setting_of(args, "services_glob")?;
        let params = setting_of(args, "params_glob")?;
        let pub_topics = merge(pub_specific, &legacy);
        let sub_topics = merge(sub_specific, &legacy);
        Ok(Access { pub_topics, sub_topics, services, params })
    }

    /// Whether topic `name` may be published (or subscribed to).
    pub fn topic(&self, name: &str, publish: bool) -> (r: Result<(), Error>)
        ensures
            check_view(r) == topic_check(self@, name@, publish),
    {
        let (patterns, setting) = if publish {
            (&self.pub_topics, "topics_pub_glob")
        } else {
            (&self.sub_topics, "topics_sub_glob")
        };
        if matches(patterns, name) {
            Ok(())
        } else {
            Err(Error::around(setting, " denies ", name))
        }
    }

    /// Whether service `name` may be called or offered.
    pub fn service(&self, name: &str) -> (r: Result<(), Error>)
        ensures
            check_view(r) == service_check(self@, name@),
    {
        if matches(&self.services, name) {
            Ok(())
        } else {
            Err(Error::around("services_glob", " denies ", name))
        }
    }

    /// Whether a service of type `typ` may be called with `args`.
    pub fn parameter_service(&self, typ: &str, args: &Json) -> (r: Result<(), Error>)
        ensures
            check_view(r) == parameter_check(self@, typ@, args@),
    {
        if self.params.is_none() {
            return Ok(());
        }
        if raw_parameter_service(typ) {
            return Err(Error::new("params_glob restricts raw parameter services; use /rosapi parameter services"));
        }
        if rosapi_parameter_service(typ) && !same(typ, "rosapi_msgs/srv/GetParamNames") {
            let full = match args.str_at("name") {
                Some(f) => f,
                None => return Err(Error::new("parameter name must be a string")),
            };
            let name = match split_once_char(full, ':') {
                Some((_, n)) => n,
                None => return Err(Error::new("expected <node_name>:<param_name>")),
            };
            if !matches(&self.params, name.as_str()) {
                return Err(Error::around("params_glob", " denies ", name.as_str()));
            }
        }
        Ok(())
    }

    /// Whether clients may offer a service of type `typ`.
    pub fn advertise_service(&self, typ: &str) -> (r: Result<(), Error>)
        ensures
            check_view(r) == advertise_check(self@, typ@),
    {
        if self.params.is_none() || (!raw_parameter_service(typ) && !rosapi_parameter_service(typ)) {
            Ok(())
        } else {
            Err(Error::new("params_glob forbids client-advertised parameter services"))
        }
    }

    /// Whether action `name` may be used: its services, and its topics for
    /// publishing where it is offered (`advertise`).
    pub fn action(&self, name: &str, advertise: bool) -> (r: Result<(), Error>)
        ensures
            check_view(r) == action_check(self@, name@, advertise),
    {
        let base = joined(name, "/_action/");
        self.service(joined(base.as_str(), "send_goal").as_str())?;
        self.service(joined(base.as_str(), "get_result").as_str())?;
        self.service(joined(base.as_str(), "cancel_goal").as_str())?;
        self.topic(joined(base.as_str(), "feedback").as_str(), advertise)?;
        self.topic(joined(base.as_str(), "status").as_str(), advertise)
    }
}


/// Under a parameter allowlist, calls to the raw parameter services of
/// `rcl_interfaces` are refused whatever their arguments, and neither those
/// nor the rosapi parameter services can be offered by a client; without
/// one, nothing is refused on that account.
pub proof fn lemma_parameter_services_guarded(a: AccessV, args: crate::json::JsonV, typ: Seq<char>)
    ensures
        a.params is Some && (typ == "rcl_interfaces/srv/GetParameters"@ || typ == "rcl_interfaces/srv/GetParameterTypes"@
            || typ == "rcl_interfaces/srv/SetParameters"@ || typ == "rcl_interfaces/srv/SetParametersAtomically"@
            || typ == "rcl_interfaces/srv/ListParameters"@ || typ == "rcl_interfaces/srv/DescribeParameters"@)
            ==> parameter_check(a, typ, args) == Err::<(), Seq<char>>("params_glob restricts raw parameter services; use /rosapi parameter services"@)
                && advertise_check(a, typ) == Err::<(), Seq<char>>("params_glob forbids client-advertised parameter services"@),
        a.params is Some && (typ == "rosapi_msgs/srv/GetParam"@ || typ == "rosapi_msgs/srv/SetParam"@
            || typ == "rosapi_msgs/srv/HasParam"@ || typ == "rosapi_msgs/srv/DeleteParam"@ || typ == "rosapi_msgs/srv/GetParamNames"@)
            ==> advertise_check(a, typ) == Err::<(), Seq<char>>("params_glob forbids client-advertised parameter services"@),
        a.params is None ==> parameter_check(a, typ, args) == Ok::<(), Seq<char>>(()) && advertise_check(a, typ) == Ok::<(), Seq<char>>(()),
{
}

/// Under a parameter allowlist, a rosapi parameter call on `node:name` is
/// let through exactly when the allowlist lets `name` through.
pub proof fn lemma_parameter_name_checked(a: AccessV, typ: Seq<char>, node: Seq<char>, name: Seq<char>, args: crate::json::JsonV)
    requires
        a.params is Some,
        typ == "rosapi_msgs/srv/GetParam"@ || typ == "rosapi_msgs/srv/SetParam"@ || typ == "rosapi_msgs/srv/HasParam"@
            || typ == "rosapi_msgs/srv/DeleteParam"@,
        !has_char(node, ':'),
        args.text_at("name"@) == Some(node + seq![':'] + name),
    ensures
        (parameter_check(a, typ, args) is Ok) == allowed(a.params, name),
{
    reveal_strlit("rosapi_msgs/srv/GetParam");
    reveal_strlit("rosapi_msgs/srv/SetParam");
    reveal_strlit("rosapi_msgs/srv/HasParam");
    reveal_strlit("rosapi_msgs/srv/DeleteParam");
    reveal_strlit("rosapi_msgs/srv/GetParamNames");
    reveal_strlit("rcl_interfaces/srv/GetParameters");
    reveal_strlit("rcl_interfaces/srv/GetParameterTypes");
    reveal_strlit("rcl_interfaces/srv/SetParameters");
    reveal_strlit("rcl_interfaces/srv/SetParametersAtomically");
    reveal_strlit("rcl_interfaces/srv/ListParameters");
    reveal_strlit("rcl_interfaces/srv/DescribeParameters");
    assert(typ[1] == 'o');
    assert(!is_raw_parameter_service(typ));
    assert(typ.len() <= 27);
    assert(typ != "rosapi_msgs/srv/GetParamNames"@);
    assert(is_rosapi_parameter_service(typ));
    let full = node + seq![':'] + name;
    let i = node.len() as int;
    assert(full[i] == ':');
    assert forall|k: int| 0 <= k < i implies full[k] != ':' by {
        assert(full[k] == node[k]);
    }
    assert(is_next(full, ':', 0, i));
    lemma_next_index(full, ':', 0, i);
    assert(full.take(i) =~= node);
    assert(full.skip(i + 1) =~= name);
}

/// An action passes the allowlists exactly when its three services
/// (`send_goal`, `get_result`, `cancel_goal` under `<name>/_action/`) pass the
/// service list and its `feedback` and `status` topics pass the topic list of
/// the direction asked for (publishing where it is advertised).
pub proof fn lemma_action_needs_all_five(a: AccessV, name: Seq<char>, advertise: bool)
    ensures
        ({
            let base = name + "/_action/"@;
            let topics = if advertise { a.pub_topics } else { a.sub_topics };
            (action_check(a, name, advertise) is Ok) == (allowed(a.services, base + "send_goal"@)
                && allowed(a.services, base + "get_result"@) && allowed(a.services, base + "cancel_goal"@)
                && allowed(topics, base + "feedback"@) && allowed(topics, base + "status"@))
        }),
{
}

/// An omitted list lets every name through; an empty list lets none.
pub proof fn lemma_omitted_allows_all_empty_denies_all(name: Seq<char>)
    ensures
        allowed(None, name),
        !allowed(Some(Seq::empty()), name),
{
}

/// The common `topics_glob` patterns are added to a directional list: a name
/// passes the merged list exactly when it passes either of them, and without a
/// directional list the common patterns alone decide.
pub proof fn lemma_common_topics_union(specific: Option<Seq<Seq<char>>>, common: Seq<Seq<char>>, name: Seq<char>)
    ensures
        allowed(merged(specific, Some(common)), name) == (allowed(Some(common), name) || (specific is Some && allowed(specific, name))),
{
    match specific {
        None => {},
        Some(ps) => {
            let all = ps + common;
            if allowed(Some(all), name) {
                let i = choose|i: int| 0 <= i < all.len() && glob_matches(#[trigger] all[i], name);
                if i < ps.len() {
                    assert(all[i] == ps[i]);
                } else {
                    assert(all[i] == common[i - ps.len()]);
                }
            }
            if allowed(Some(ps), name) {
                let i = choose|i: int| 0 <= i < ps.len() && glob_matches(#[trigger] ps[i], name);
                assert(all[i] == ps[i]);
            }
            if allowed(Some(common), name) {
                let i = choose|i: int| 0 <= i < common.len() && glob_matches(#[trigger] common[i], name);
                assert(all[ps.len() + i] == common[i]);
            }
        },
    }
}

} // verus!
