//! Logging settings: their defaults, the checks made before logging starts, and
//! the names of the log files that the rotating writer leaves behind.

use vstd::prelude::*;
use crate::error::Error;
use crate::text::{append, chars_of, owned, push_char, same};
use crate::text::views;
use crate::wire::{append_escaped, decimal, decimal_string, escape};

verus! {

#[verifier::external_type_specification]
#[verifier::external_body]
pub struct ExPathBuf(std::path::PathBuf);

/// The clock that log timestamps and file names are written in.
#[derive(Clone, Copy, Debug, PartialEq, Eq, Structural)]
pub enum Timezone {
    Local,
    Utc,
}

impl Default for Timezone {
    fn default() -> (t: Timezone)
        ensures
            t == Timezone::Local,
    {
        Timezone::Local
    }
}

/// The `[log]` table of the configuration file.
pub struct Log {
    /// A filter in `RUST_LOG` syntax.
    pub level: String,
    /// Where rotating log files are written; none keeps logs on the console only.
    pub directory: Option<std::path::PathBuf>,
    /// `daily`, `hourly` or `never`.
    pub rotation: String,
    /// How many completed archives are kept.
    pub max_files: usize,
    pub console: bool,
    pub timezone: Timezone,
    pub ansi: bool,
}

impl Default for Log {
    fn default() -> (l: Log)
        ensures
            l.level@ == "info"@,
            l.directory.is_none(),
            l.rotation@ == "20min"@,
            l.max_files == 7,
            l.console,
            l.timezone == Timezone::Local,
            !l.ansi,
    {
        Log {
            level: owned("info"),
            directory: None,
            rotation: owned("20min"),
            max_files: 7,
            console: true,
            timezone: Timezone::Local,
            ansi: false,
        }
    }
}

/// How often the active log file is closed and archived.
#[derive(Clone, Copy, Debug, PartialEq, Eq, Structural)]
pub enum Rotation {
    /// At minutes 00, 20 and 40 of each hour.
    TwentyMinutes,
    Daily,
    Hourly,
    Never,
}

/// The rotation a setting names, if any.
pub open spec fn rotation_named(s: Seq<char>) -> Option<Rotation> {
    if s == "20min"@ {
        Some(Rotation::TwentyMinutes)
    } else if s == "daily"@ {
        Some(Rotation::Daily)
    } else if s == "hourly"@ {
        Some(Rotation::Hourly)
    } else if s == "never"@ {
        Some(Rotation::Never)
    } else {
        None
    }
}

impl Rotation {
    /// Reads a `log.rotation` setting.
    pub fn parse(s: &str) -> (r: Result<Rotation, Error>)
        ensures
            match r {
                Ok(x) => rotation_named(s@) == Some(x),
                Err(e) => rotation_named(s@).is_none()
                    && e.message@ == "log.rotation must be 20min, daily, hourly or never"@,
            },
    {
        if same(s, "20min") {
            Ok(Rotation::TwentyMinutes)
        } else if same(s, "daily") {
            Ok(Rotation::Daily)
        } else if same(s, "hourly") {
            Ok(Rotation::Hourly)
        } else if same(s, "never") {
            Ok(Rotation::Never)
        } else {
            Err(Error::new("log.rotation must be 20min, daily, hourly or never"))
        }
    }
}

/// The minute at which the twenty-minute period holding `minute` began:
/// 0, 20 or 40.
pub open spec fn slot_start(minute: u32) -> u32 {
    (minute - minute % 20) as u32
}

/// Twenty-minute rotation splits each hour at minutes 00, 20 and 40: a minute
/// of the hour falls in the period that began at the last of these not
/// after it.
pub proof fn lemma_twenty_minute_periods(minute: u32)
    requires
        minute < 60,
    ensures
        slot_start(minute) == 0 || slot_start(minute) == 20 || slot_start(minute) == 40,
        slot_start(minute) <= minute < slot_start(minute) + 20,
{
}

impl Rotation {
    /// The first minute of the period that `minute` of an hour falls in, where
    /// the rotation splits hours: a file is archived on the first write whose
    /// period differs from that of the file.
    pub fn period_minute(&self, minute: u32) -> (r: Option<u32>)
        ensures
            r == (if *self == Rotation::TwentyMinutes { Some(slot_start(minute)) } else { None::<u32> }),
    {
        match self {
            Rotation::TwentyMinutes => Some(minute - minute % 20),
            _ => None,
        }
    }
}

/// Why settings cannot start the logger, checked in the order the logger starts up.
pub open spec fn log_error(l: Log) -> Option<Seq<char>> {
    if !l.console && l.directory.is_none() {
        Some("enable console logging or set log.directory"@)
    } else if rotation_named(l.rotation@).is_none() {
        Some("log.rotation must be 20min, daily, hourly or never"@)
    } else if l.max_files == 0 {
        Some("log.max_files must be positive"@)
    } else {
        None
    }
}

impl Log {
    /// Checks the settings that decide where logs go, and gives the rotation to use.
    pub fn check(&self) -> (r: Result<Rotation, Error>)
        ensures
            match r {
                Ok(x) => log_error(*self).is_none() && rotation_named(self.rotation@) == Some(x),
                Err(e) => log_error(*self) == Some(e.message@),
            },
    {
        if !self.console && self.directory.is_none() {
            return Err(Error::new("enable console logging or set log.directory"));
        }
        let rotation = Rotation::parse(self.rotation.as_str())?;
        if self.max_files == 0 {
            return Err(Error::new("log.max_files must be positive"));
        }
        Ok(rotation)
    }
}

/// A decimal digit.
pub open spec fn digit(c: char) -> bool {
    '0' <= c && c <= '9'
}

/// Every character of `s` is a decimal digit.
pub open spec fn digits(s: Seq<char>) -> bool {
    forall|k: int| 0 <= k < s.len() ==> #[trigger] digit(s[k])
}

/// A file stem that the log writer creates: a twelve-digit `YYYYMMDDHHMM` stamp,
/// then optionally `-` and a nonempty counter.
pub open spec fn stamped(s: Seq<char>) -> bool {
    &&& s.len() >= 12
    &&& digits(s.subrange(0, 12))
    &&& s.len() == 12 || (s.len() >= 14 && s[12] == '-' && digits(s.subrange(13, s.len() as int)))
}

/// A completed archive: a stamped stem with the extension `log`.
pub open spec fn archive_name(n: Seq<char>) -> bool {
    &&& n.len() >= 5
    &&& n[n.len() - 4] == '.' && n[n.len() - 3] == 'l' && n[n.len() - 2] == 'o' && n[n.len() - 1] == 'g'
    &&& stamped(n.subrange(0, n.len() - 4))
}

fn all_digits(cs: &Vec<char>, from: usize, to: usize) -> (r: bool)
    requires
        from <= to <= cs@.len(),
    ensures
        r == digits(cs@.subrange(from as int, to as int)),
{
    let mut i = from;
    while i < to
        invariant
            from <= i <= to <= cs@.len(),
            digits(cs@.subrange(from as int, i as int)),
        decreases to - i,
    {
        if !('0' <= cs[i] && cs[i] <= '9') {
            assert(!digit(cs@.subrange(from as int, to as int)[i - from]));
            return false;
        }
        i = i + 1;
        assert forall|k: int| 0 <= k < i - from implies #[trigger] digit(cs@.subrange(from as int, i as int)[k]) by {
            if k < i - 1 - from {
                assert(cs@.subrange(from as int, i as int)[k] == cs@.subrange(from as int, i - 1)[k]);
            }
        }
    }
    true
}

/// Whether a file name is that of a completed log archive, which pruning may
/// remove. Other files in the log directory are left alone.
pub fn is_archive(name: &str) -> (r: bool)
    ensures
        r == archive_name(name@),
{
    let cs = chars_of(name);
    let n = cs.len();
    if n < 5 {
        return false;
    }
    if !(cs[n - 4] == '.' && cs[n - 3] == 'l' && cs[n - 2] == 'o' && cs[n - 1] == 'g') {
        return false;
    }
    let ghost stem = name@.subrange(0, n - 4);
    let m = n - 4;
    if m < 12 || !all_digits(&cs, 0, 12) {
        assert(m >= 12 ==> cs@.subrange(0, 12) == stem.subrange(0, 12));
        return false;
    }
    assert(cs@.subrange(0, 12) == stem.subrange(0, 12));
    if m == 12 {
        return true;
    }
    if m < 14 || cs[12] != '-' {
        return false;
    }
    let tail = all_digits(&cs, 13, m);
    assert(cs@.subrange(13, m as int) == stem.subrange(13, stem.len() as int));
    tail
}

/// The stem of the `index`-th file name tried for a log opened at `stamp`:
/// the stamp itself first, then the stamp with `-1`, `-2`, ...
pub open spec fn stem_of(stamp: Seq<char>, index: nat) -> Seq<char> {
    if index == 0 {
        stamp
    } else {
        stamp + seq!['-'] + decimal(index)
    }
}

pub fn active_stem(stamp: &str, index: u64) -> (r: String)
    ensures
        r@ == stem_of(stamp@, index as nat),
{
    let mut s = owned(stamp);
    if index != 0 {
        push_char(&mut s, '-');
        let d = decimal_string(index);
        append(&mut s, d.as_str());
    }
    s
}

proof fn lemma_decimal_digits(n: nat)
    ensures
        decimal(n).len() > 0,
        digits(decimal(n)),
    decreases n,
{
    if n < 10 {
        assert(digit(decimal(n)[0]));
    } else {
        lemma_decimal_digits(n / 10);
        let d = decimal(n);
        assert forall|k: int| 0 <= k < d.len() implies #[trigger] digit(d[k]) by {
            if k < decimal(n / 10).len() {
                assert(d[k] == decimal(n / 10)[k]);
            }
        }
    }
}

/// Every file that the log writer completes, whatever counter it needed to
/// avoid an existing name, is recognised as an archive.
pub proof fn lemma_written_archives_are_recognised(stamp: Seq<char>, index: nat)
    requires
        stamp.len() == 12,
        digits(stamp),
    ensures
        archive_name(stem_of(stamp, index) + seq!['.', 'l', 'o', 'g']),
{
    let s = stem_of(stamp, index);
    let n = s + seq!['.', 'l', 'o', 'g'];
    assert(n.subrange(0, n.len() - 4) == s);
    assert(s.subrange(0, 12) == stamp);
    if index != 0 {
        lemma_decimal_digits(index);
        assert(s.subrange(13, s.len() as int) == decimal(index));
    }
}


/// Why the server's limits cannot be used, checked in the order of loading:
/// positive queue sizes, a positive message size, and an absolute URL path
/// without a query or fragment.
pub open spec fn limits_error(incoming: usize, write: usize, max: usize, url_path: Seq<char>) -> Option<Seq<char>> {
    if !(incoming > 0 && write > 0) {
        Some("queue sizes must be positive"@)
    } else if max == 0 {
        Some("max_message_size must be positive"@)
    } else if !(url_path.len() > 0 && url_path[0] == '/' && !url_path.contains('?') && !url_path.contains('#')) {
        Some("url_path must be an absolute URL path"@)
    } else {
        None
    }
}

pub fn check_limits(incoming: usize, write: usize, max: usize, url_path: &str) -> (r: Result<(), Error>)
    ensures
        match r {
            Ok(()) => limits_error(incoming, write, max, url_path@) is None,
            Err(e) => limits_error(incoming, write, max, url_path@) == Some(e.message@),
        },
{
    if !(incoming > 0 && write > 0) {
        return Err(Error::new("queue sizes must be positive"));
    }
    if max == 0 {
        return Err(Error::new("max_message_size must be positive"));
    }
    let cs = chars_of(url_path);
    let mut ok = cs.len() > 0 && cs[0] == '/';
    let mut i: usize = 0;
    while i < cs.len()
        invariant
            cs@ == url_path@,
            i <= cs@.len(),
            ok == (cs@.len() > 0 && cs@[0] == '/' && forall|k: int| 0 <= k < i ==> cs@[k] != '?' && cs@[k] != '#'),
        decreases cs.len() - i,
    {
        ok = ok && cs[i] != '?' && cs[i] != '#';
        i = i + 1;
    }
    proof {
        if !ok && cs@.len() > 0 && cs@[0] == '/' {
            let k = choose|k: int| 0 <= k < cs@.len() && !(cs@[k] != '?' && cs@[k] != '#');
            if cs@[k] == '?' {
                assert(url_path@.contains('?'));
            } else {
                assert(url_path@.contains('#'));
            }
        }
    }
    if !ok {
        return Err(Error::new("url_path must be an absolute URL path"));
    }
    Ok(())
}

/// A list of strings as a JSON array, as `serde_json` writes it.
pub open spec fn json_strings(items: Seq<Seq<char>>) -> Seq<char> {
    seq!['['] + quoted_list(items) + seq![']']
}

/// The quoted items, separated by commas.
pub open spec fn quoted_list(items: Seq<Seq<char>>) -> Seq<char>
    decreases items.len(),
{
    if items.len() == 0 {
        Seq::empty()
    } else if items.len() == 1 {
        seq!['"'] + escape(items[0]) + seq!['"']
    } else {
        quoted_list(items.drop_last()) + seq![','] + seq!['"'] + escape(items.last()) + seq!['"']
    }
}

pub fn json_strings_text(items: &Vec<String>) -> (r: String)
    ensures
        r@ == json_strings(views(items@)),
{
    let ghost v = views(items@);
    let mut out = String::new();
    push_char(&mut out, '[');
    let mut i: usize = 0;
    while i < items.len()
        invariant
            i <= items@.len(),
            v == views(items@),
            out@ == seq!['['] + quoted_list(v.take(i as int)),
        decreases items.len() - i,
    {
        assert(v.take(i + 1).drop_last() =~= v.take(i as int));
        assert(v.take(i + 1).last() == items@[i as int]@);
        if i > 0 {
            push_char(&mut out, ',');
        }
        push_char(&mut out, '"');
        append_escaped(&mut out, items[i].as_str());
        push_char(&mut out, '"');
        proof {
            if i == 0 {
                assert(v.take(1) =~= seq![items@[0]@]);
                assert(quoted_list(v.take(0)) =~= Seq::<char>::empty());
            }
        }
        assert(out@ =~= seq!['['] + quoted_list(v.take(i + 1)));
        i = i + 1;
    }
    push_char(&mut out, ']');
    assert(v.take(i as int) =~= v);
    out
}

/// The ROS arguments without any `--ros-args` marker.
pub open spec fn unmarked(args: Seq<Seq<char>>) -> Seq<Seq<char>>
    decreases args.len(),
{
    if args.len() == 0 {
        Seq::empty()
    } else if args.last() == "--ros-args"@ {
        unmarked(args.drop_last())
    } else {
        unmarked(args.drop_last()).push(args.last())
    }
}

/// The `-p` arguments for the allowlists a configuration file sets, in order,
/// then for its parameter timeout (given as text).
pub open spec fn file_parameters(lists: Seq<(Seq<char>, Seq<Seq<char>>)>, timeout: Option<Seq<char>>) -> Seq<Seq<char>>
    decreases lists.len(),
{
    if lists.len() == 0 {
        match timeout {
            Some(t) => seq!["-p"@, "params_timeout:="@ + t],
            None => Seq::empty(),
        }
    } else {
        seq!["-p"@, lists[0].0 + ":="@ + json_strings(lists[0].1)] + file_parameters(lists.drop_first(), timeout)
    }
}

/// The ROS arguments once a configuration file's settings are added: where it
/// sets any, `--ros-args`, its parameters, then the given arguments without
/// their own marker, so that explicit arguments still come last and win.
pub open spec fn ros_arguments(lists: Seq<(Seq<char>, Seq<Seq<char>>)>, timeout: Option<Seq<char>>, args: Seq<Seq<char>>) -> Seq<Seq<char>> {
    let params = file_parameters(lists, timeout);
    if params.len() > 0 {
        seq!["--ros-args"@] + params + unmarked(args)
    } else {
        args
    }
}

pub open spec fn lists_view(lists: Seq<(String, Vec<String>)>) -> Seq<(Seq<char>, Seq<Seq<char>>)> {
    Seq::new(lists.len(), |i: int| (lists[i].0@, views(lists[i].1@)))
}

fn parameters_from(lists: &Vec<(String, Vec<String>)>, from: usize, timeout: &Option<String>) -> (r: Vec<String>)
    requires
        from <= lists@.len(),
    ensures
        views(r@) == file_parameters(lists_view(lists@).skip(from as int), match timeout { Some(t) => Some(t@), None => None }),
    decreases lists@.len() - from,
{
    proof {
        reveal_strlit("-p");
        reveal_strlit("params_timeout:=");
        reveal_strlit(":=");
    }
    let ghost t = match timeout { Some(t) => Some(t@), None => None::<Seq<char>> };
    let ghost l = lists_view(lists@).skip(from as int);
    let mut r: Vec<String> = Vec::new();
    if from == lists.len() {
        assert(l.len() == 0);
        match timeout {
            Some(text) => {
                r.push(owned("-p"));
                let mut p = owned("params_timeout:=");
                append(&mut p, text.as_str());
                r.push(p);
                assert(views(r@) =~= file_parameters(l, t));
            },
            None => {
                assert(views(r@) =~= file_parameters(l, t));
            },
        }
        return r;
    }
    r.push(owned("-p"));
    let mut p = owned(lists[from].0.as_str());
    append(&mut p, ":=");
    let json = json_strings_text(&lists[from].1);
    append(&mut p, json.as_str());
    r.push(p);
    let rest = parameters_from(lists, from + 1, timeout);
    let ghost head = views(r@);
    let mut all = r;
    let mut rest = rest;
    let ghost rv = views(rest@);
    all.append(&mut rest);
    assert(l.drop_first() =~= lists_view(lists@).skip(from + 1));
    assert(views(all@) =~= head + rv);
    assert(head =~= seq!["-p"@, l[0].0 + ":="@ + json_strings(l[0].1)]);
    all
}

/// Adds a configuration file's allowlists (setting name and patterns, in the
/// order the file's settings are read) and parameter timeout to the ROS arguments.
pub fn ros_arguments_with(lists: &Vec<(String, Vec<String>)>, timeout: &Option<String>, args: &Vec<String>) -> (r: Vec<String>)
    ensures
        views(r@) == ros_arguments(lists_view(lists@), match timeout { Some(t) => Some(t@), None => None }, views(args@)),
{
    let params = parameters_from(lists, 0, timeout);
    assert(lists_view(lists@).skip(0) =~= lists_view(lists@));
    if params.len() == 0 {
        let mut copy: Vec<String> = Vec::new();
        let mut i: usize = 0;
        while i < args.len()
            invariant
                i <= args@.len(),
                copy@.len() == i,
                forall|k: int| 0 <= k < i ==> #[trigger] copy@[k]@ == args@[k]@,
            decreases args.len() - i,
        {
            copy.push(owned(args[i].as_str()));
            i = i + 1;
        }
        assert(views(copy@) =~= views(args@));
        return copy;
    }
    let mut out: Vec<String> = Vec::new();
    out.push(owned("--ros-args"));
    let mut params = params;
    let ghost pv = views(params@);
    out.append(&mut params);
    let ghost av = views(args@);
    let ghost start = views(out@);
    assert(start =~= seq!["--ros-args"@] + pv);
    let mut i: usize = 0;
    while i < args.len()
        invariant
            i <= args@.len(),
            av == views(args@),
            views(out@) == start + unmarked(av.take(i as int)),
        decreases args.len() - i,
    {
        assert(av.take(i + 1).drop_last() =~= av.take(i as int));
        assert(av.take(i + 1).last() == args@[i as int]@);
        if !same(args[i].as_str(), "--ros-args") {
            let ghost before = views(out@);
            out.push(owned(args[i].as_str()));
            assert(views(out@) =~= before.push(args@[i as int]@));
        }
        i = i + 1;
    }
    assert(av.take(i as int) =~= av);
    out
}

/// Which value a setting takes: the file's, where the file has one and no
/// flag gave the setting on the command line; else `current`, the flag's value
/// or the default.
pub open spec fn chosen<T>(explicit: bool, file: Option<T>, current: T) -> T {
    if !explicit && file is Some {
        file->Some_0
    } else {
        current
    }
}

/// One setting after the file is read: explicit flags beat the file, which
/// beats the defaults.
pub fn overlay<T>(explicit: bool, file: Option<T>, current: T) -> (r: T)
    ensures
        r == chosen(explicit, file, current),
{
    match file {
        Some(v) => if explicit {
            current
        } else {
            v
        },
        None => current,
    }
}

/// The settings read from flags and the configuration file that are plain
/// values: the port, the node's name and namespace, the simulated clock, the
/// rosapi switch, the message and queue limits, and the URL path.
pub struct Settings {
    pub port: u16,
    pub node_name: String,
    pub namespace: String,
    pub use_sim_time: bool,
    pub no_rosapi: bool,
    pub max_message_size: usize,
    pub url_path: String,
    pub incoming_queue_size: usize,
    pub write_queue_size: usize,
}

/// The same settings as the configuration file gives them, each where it
/// is present.
pub struct FileSettings {
    pub port: Option<u16>,
    pub node_name: Option<String>,
    pub namespace: Option<String>,
    pub use_sim_time: Option<bool>,
    pub no_rosapi: Option<bool>,
    pub max_message_size: Option<usize>,
    pub url_path: Option<String>,
    pub incoming_queue_size: Option<usize>,
    pub write_queue_size: Option<usize>,
}

/// Which of the settings a flag gave on the command line (the port comes
/// with the bind address).
pub struct Explicit {
    pub bind: bool,
    pub node_name: bool,
    pub namespace: bool,
    pub use_sim_time: bool,
    pub no_rosapi: bool,
    pub max_message_size: bool,
    pub url_path: bool,
    pub incoming_queue_size: bool,
    pub write_queue_size: bool,
}

/// The settings after the file is read, field by field by [`overlay`]: an
/// explicit flag keeps its value, else the file's value is taken where it has
/// one, else the default stays.
pub fn merge(flags: Settings, file: FileSettings, explicit: &Explicit) -> (r: Settings)
    ensures
        r.port == chosen(explicit.bind, file.port, flags.port),
        r.node_name == chosen(explicit.node_name, file.node_name, flags.node_name),
        r.namespace == chosen(explicit.namespace, file.namespace, flags.namespace),
        r.use_sim_time == chosen(explicit.use_sim_time, file.use_sim_time, flags.use_sim_time),
        r.no_rosapi == chosen(explicit.no_rosapi, file.no_rosapi, flags.no_rosapi),
        r.max_message_size == chosen(explicit.max_message_size, file.max_message_size, flags.max_message_size),
        r.url_path == chosen(explicit.url_path, file.url_path, flags.url_path),
        r.incoming_queue_size == chosen(explicit.incoming_queue_size, file.incoming_queue_size, flags.incoming_queue_size),
        r.write_queue_size == chosen(explicit.write_queue_size, file.write_queue_size, flags.write_queue_size),
{
    Settings {
        port: overlay(explicit.bind, file.port, flags.port),
        node_name: overlay(explicit.node_name, file.node_name, flags.node_name),
        namespace: overlay(explicit.namespace, file.namespace, flags.namespace),
        use_sim_time: overlay(explicit.use_sim_time, file.use_sim_time, flags.use_sim_time),
        no_rosapi: overlay(explicit.no_rosapi, file.no_rosapi, flags.no_rosapi),
        max_message_size: overlay(explicit.max_message_size, file.max_message_size, flags.max_message_size),
        url_path: overlay(explicit.url_path, file.url_path, flags.url_path),
        incoming_queue_size: overlay(explicit.incoming_queue_size, file.incoming_queue_size, flags.incoming_queue_size),
        write_queue_size: overlay(explicit.write_queue_size, file.write_queue_size, flags.write_queue_size),
    }
}

/// An explicit flag beats the file, and the file beats the default: the law
/// of [`overlay`], stated for every setting.
pub proof fn lemma_precedence<T>(file: T, current: T)
    ensures
        chosen(true, Some(file), current) == current,
        chosen(false, Some(file), current) == file,
        chosen(false, None::<T>, current) == current,
{
}

} // verus!
