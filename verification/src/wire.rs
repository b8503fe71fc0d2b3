//! Protocol options, outbound framing and fragmentation.

use vstd::prelude::*;
use vstd::utf8::*;
use base64::Engine;
use crate::error::Error;
use crate::json::{Json, JsonV};
use crate::text::{append, chars_of, push_char, same, string_of, views};
pub use crate::assembly::{Decoded, Decoder};

verus! {

/// How outbound messages to a client are encoded.
#[derive(Clone, Copy, Debug, PartialEq, Eq, Structural)]
pub enum Compression {
    Plain,
    Png,
    Cbor,
    Raw,
}

impl Default for Compression {
    fn default() -> (c: Compression)
        ensures
            c == Compression::Plain,
    {
        Compression::Plain
    }
}

pub open spec fn spec_compression(s: Seq<char>) -> Option<Compression> {
    if s == "none"@ {
        Some(Compression::Plain)
    } else if s == "png"@ {
        Some(Compression::Png)
    } else if s == "cbor"@ {
        Some(Compression::Cbor)
    } else if s == "cbor-raw"@ {
        Some(Compression::Raw)
    } else {
        None
    }
}

impl Compression {
    /// `none`, `png`, `cbor` or `cbor-raw`.
    pub fn parse(s: &str) -> (r: Result<Compression, Error>)
        ensures
            match r {
                Ok(c) => spec_compression(s@) == Some(c),
                Err(e) => spec_compression(s@) is None && e.message@ == "unsupported compression "@ + s@,
            },
    {
        if same(s, "none") {
            Ok(Compression::Plain)
        } else if same(s, "png") {
            Ok(Compression::Png)
        } else if same(s, "cbor") {
            Ok(Compression::Cbor)
        } else if same(s, "cbor-raw") {
            Ok(Compression::Raw)
        } else {
            Err(Error::with("unsupported compression ", s))
        }
    }
}

/// Per-request delivery options: encoding, fragment size in bytes, minimum
/// interval between topic messages in milliseconds, and queue length.
#[derive(Clone, Copy, Debug, PartialEq, Eq)]
pub struct Options {
    pub compression: Compression,
    pub fragment: Option<usize>,
    pub throttle_ms: u64,
    pub queue: usize,
}

impl Default for Options {
    fn default() -> (o: Options)
        ensures
            o == (Options { compression: Compression::Plain, fragment: None, throttle_ms: 0, queue: 0 }),
    {
        Options { compression: Compression::Plain, fragment: None, throttle_ms: 0, queue: 0 }
    }
}

/// An optional nonnegative integer member, zero where absent.
pub open spec fn count_member(v: JsonV, key: Seq<char>) -> Option<u64> {
    match v.field(key) {
        None => Some(0),
        Some(x) => x.unsigned(),
    }
}

/// The `compression` member: `none` where absent.
pub open spec fn compression_member(v: JsonV) -> Option<Compression> {
    match v.field("compression"@) {
        None => Some(Compression::Plain),
        Some(x) => match x.text() {
            Some(s) => spec_compression(s),
            None => None,
        },
    }
}

/// The options of a `subscribe`, `call_service` or `send_action_goal` request.
pub open spec fn spec_options(v: JsonV) -> Option<Options> {
    match (count_member(v, "fragment_size"@), compression_member(v),
        count_member(v, "throttle_rate"@), count_member(v, "queue_length"@)) {
        (Some(f), Some(c), Some(t), Some(q)) => Some(Options {
            compression: c,
            fragment: if f as usize > 0 { Some(f as usize) } else { None },
            throttle_ms: t,
            queue: q as usize,
        }),
        _ => None,
    }
}

fn count(v: &Json, key: &str) -> (r: Result<u64, Error>)
    ensures
        match r {
            Ok(n) => count_member(v@, key@) == Some(n),
            Err(_) => count_member(v@, key@) is None,
        },
{
    match v.get(key) {
        None => Ok(0),
        Some(x) => match x.as_u64() {
            Some(n) => Ok(n),
            None => Err(Error::with(key, " must be a nonnegative integer")),
        },
    }
}

impl Options {
    /// Reads `fragment_size`, `compression`, `throttle_rate` and `queue_length`.
    pub fn parse(v: &Json) -> (r: Result<Options, Error>)
        ensures
            match r {
                Ok(o) => spec_options(v@) == Some(o),
                Err(_) => spec_options(v@) is None,
            },
    {
        let fragment = count(v, "fragment_size")? as usize;
        let compression = match v.get("compression") {
            None => Compression::Plain,
            Some(x) => match x.as_str() {
                Some(s) => Compression::parse(s)?,
                None => {
                    return Err(Error::new("compression must be a string"));
                },
            },
        };
        let throttle_ms = count(v, "throttle_rate")?;
        let queue = count(v, "queue_length")? as usize;
        Ok(Options {
            compression,
            fragment: if fragment > 0 { Some(fragment) } else { None },
            throttle_ms,
            queue,
        })
    }
}

/// The number of bytes that `c` takes in UTF-8.
pub open spec fn width(c: char) -> int {
    encode_scalar(c as u32).len() as int
}

/// The number of bytes that `s` takes in UTF-8.
pub open spec fn byte_len(s: Seq<char>) -> int {
    encode_utf8(s).len() as int
}

pub fn char_width(c: char) -> (r: usize)
    ensures
        r == width(c),
        1 <= r <= 4,
{
    proof {
        char_is_scalar(c);
    }
    let v = c as u32;
    if v <= 0x7f {
        1
    } else if v <= 0x7ff {
        2
    } else if v <= 0xffff {
        3
    } else {
        4
    }
}

/// How many leading characters of `cs` fit in `budget` bytes.
pub open spec fn fit(cs: Seq<char>, budget: int) -> int
    decreases cs.len(),
{
    if cs.len() == 0 || width(cs[0]) > budget {
        0
    } else {
        1 + fit(cs.drop_first(), budget - width(cs[0]))
    }
}

pub proof fn lemma_fit_bounds(cs: Seq<char>, budget: int)
    ensures
        0 <= fit(cs, budget) <= cs.len(),
    decreases cs.len(),
{
    if cs.len() > 0 {
        lemma_fit_bounds(cs.drop_first(), budget - width(cs[0]));
    }
}

/// `cs` cut into the longest runs that fit in `limit` bytes each, or `None`
/// where a character alone is wider than `limit`.
pub open spec fn chunks(cs: Seq<char>, limit: int) -> Option<Seq<Seq<char>>>
    decreases cs.len(),
{
    if cs.len() == 0 {
        Some(Seq::empty())
    } else {
        let k = fit(cs, limit);
        proof {
            lemma_fit_bounds(cs, limit);
        }
        if k <= 0 {
            None
        } else {
            match chunks(cs.skip(k), limit) {
                Some(rest) => Some(seq![cs.take(k)] + rest),
                None => None,
            }
        }
    }
}

/// The bytes of a nonempty text: those of its first character, then the rest.
proof fn lemma_byte_len_first(s: Seq<char>)
    requires
        s.len() > 0,
    ensures
        byte_len(s) == width(s[0]) + byte_len(s.drop_first()),
{
}

/// The characters that `fit` counts take at most `budget` bytes, and one more
/// character would take more.
proof fn lemma_fit_fits(cs: Seq<char>, budget: int)
    requires
        budget >= 0,
    ensures
        byte_len(cs.take(fit(cs, budget))) <= budget,
        fit(cs, budget) < cs.len() ==> byte_len(cs.take(fit(cs, budget) + 1)) > budget,
    decreases cs.len(),
{
    lemma_fit_bounds(cs, budget);
    let k = fit(cs, budget);
    if k == 0 {
        assert(cs.take(0) =~= Seq::<char>::empty());
        if cs.len() > 0 {
            lemma_byte_len_first(cs.take(1));
            assert(cs.take(1).drop_first() =~= Seq::<char>::empty());
            assert(byte_len(Seq::<char>::empty()) == 0);
            assert(cs.take(1)[0] == cs[0]);
            lemma_fit_bounds(cs.drop_first(), budget - width(cs[0]));
            assert(width(cs[0]) > budget);
        }
    } else {
        let rest = cs.drop_first();
        let b = budget - width(cs[0]);
        assert(k == 1 + fit(rest, b));
        assert(b >= 0);
        lemma_fit_fits(rest, b);
        lemma_byte_len_first(cs.take(k));
        assert(cs.take(k).drop_first() =~= rest.take(k - 1));
        assert(cs.take(k)[0] == cs[0]);
        if k < cs.len() {
            lemma_byte_len_first(cs.take(k + 1));
            assert(cs.take(k + 1).drop_first() =~= rest.take(k));
            assert(cs.take(k + 1)[0] == cs[0]);
        }
    }
}

/// Every chunk that a text is cut into is nonempty and fits in `limit` bytes,
/// and each but the last is as long as can be: with the next character it
/// would not fit.
pub proof fn lemma_chunks_fit(cs: Seq<char>, limit: int)
    requires
        chunks(cs, limit) is Some,
    ensures
        ({
            let parts = chunks(cs, limit)->0;
            &&& forall|i: int| 0 <= i < parts.len() ==> (#[trigger] parts[i]).len() > 0 && byte_len(parts[i]) <= limit
            &&& forall|i: int| 0 <= i < parts.len() - 1 ==> byte_len((#[trigger] parts[i]).push(parts[i + 1][0])) > limit
        }),
    decreases cs.len(),
{
    if cs.len() > 0 {
        let k = fit(cs, limit);
        lemma_fit_bounds(cs, limit);
        assert(width(cs[0]) <= limit);
        assert(width(cs[0]) >= 0);
        lemma_fit_fits(cs, limit);
        let tail = cs.skip(k);
        lemma_chunks_fit(tail, limit);
        let rest = chunks(tail, limit)->0;
        let parts = chunks(cs, limit)->0;
        assert(parts == seq![cs.take(k)] + rest);
        assert forall|i: int| 0 <= i < parts.len() implies (#[trigger] parts[i]).len() > 0 && byte_len(parts[i]) <= limit by {
            if i > 0 {
                assert(parts[i] == rest[i - 1]);
            }
        }
        assert forall|i: int| 0 <= i < parts.len() - 1 implies byte_len((#[trigger] parts[i]).push(parts[i + 1][0])) > limit by {
            if i > 0 {
                assert(parts[i] == rest[i - 1]);
                assert(parts[i + 1] == rest[i]);
            } else {
                assert(parts[1] == rest[0]);
                assert(rest[0].len() > 0);
                assert(tail.len() > 0);
                lemma_chunks_head(tail, limit);
                lemma_fit_bounds(tail, limit);
                assert(rest[0][0] == tail.take(fit(tail, limit))[0]);
                assert(rest[0][0] == tail[0]);
                assert(cs.take(k).push(tail[0]) =~= cs.take(k + 1));
            }
        }
    }
}

/// The first chunk of a nonempty text begins with its first character.
proof fn lemma_chunks_head(cs: Seq<char>, limit: int)
    requires
        chunks(cs, limit) is Some,
        cs.len() > 0,
    ensures
        (chunks(cs, limit)->0).len() > 0,
        (chunks(cs, limit)->0)[0] == cs.take(fit(cs, limit)),
{
    let k = fit(cs, limit);
    lemma_fit_bounds(cs, limit);
    let parts = chunks(cs, limit)->0;
    assert(parts == seq![cs.take(k)] + chunks(cs.skip(k), limit)->0);
}


/// The largest number of leading characters of `cs[from..]` that fit in `limit` bytes.
fn fit_from(cs: &Vec<char>, from: usize, limit: usize) -> (r: usize)
    requires
        from <= cs@.len(),
    ensures
        from <= r <= cs@.len(),
        r - from == fit(cs@.skip(from as int), limit as int),
{
    let mut j = from;
    let mut used: usize = 0;
    proof {
        assert(cs@.skip(from as int) == cs@.skip(j as int));
    }
    while j < cs.len()
        invariant
            from <= j <= cs@.len(),
            used <= limit,
            fit(cs@.skip(from as int), limit as int) == (j - from) + fit(cs@.skip(j as int), limit - used),
        decreases cs.len() - j,
    {
        let w = char_width(cs[j]);
        assert(cs@.skip(j as int)[0] == cs@[j as int]);
        assert(cs@.skip(j as int).drop_first() == cs@.skip(j + 1));
        if w > limit - used {
            return j;
        }
        used = used + w;
        j = j + 1;
    }
    assert(cs@.skip(j as int).len() == 0);
    j
}

/// `chunks` of `cs` from position `from`, with the chunks already cut prepended.
fn cut(cs: &Vec<char>, limit: usize) -> (r: Option<Vec<String>>)
    ensures
        match r {
            Some(v) => chunks(cs@, limit as int) == Some(views(v@)),
            None => chunks(cs@, limit as int) is None,
        },
{
    let mut out: Vec<String> = Vec::new();
    let mut i: usize = 0;
    assert(cs@.skip(0) == cs@);
    while i < cs.len()
        invariant
            i <= cs@.len(),
            chunks(cs@, limit as int) == match chunks(cs@.skip(i as int), limit as int) {
                Some(rest) => Some(views(out@) + rest),
                None => None::<Seq<Seq<char>>>,
            },
        decreases cs.len() - i,
    {
        let j = fit_from(cs, i, limit);
        if j == i {
            return None;
        }
        let piece = string_of(cs, i, j);
        proof {
            let rest = cs@.skip(i as int);
            let k = j - i;
            assert(rest.take(k as int) == piece@);
            assert(rest.skip(k as int) == cs@.skip(j as int));
            assert(views(out@.push(piece)) == views(out@).push(piece@));
            assert(views(out@).push(piece@) + Seq::<Seq<char>>::empty() == views(out@).push(piece@));
            match chunks(cs@.skip(j as int), limit as int) {
                Some(tail) => {
                    assert(views(out@) + (seq![piece@] + tail) == views(out@).push(piece@) + tail);
                },
                None => {},
            }
        }
        out.push(piece);
        i = j;
    }
    assert(cs@.skip(i as int).len() == 0);
    assert(views(out@) + Seq::<Seq<char>>::empty() == views(out@));
    Some(out)
}

/// A hexadecimal digit, lowercase.
pub open spec fn hex_digit(d: int) -> char {
    if d < 10 {
        ((48 + d) as u8) as char
    } else {
        ((87 + d) as u8) as char
    }
}

/// One character as it appears inside a JSON string literal.
pub open spec fn escape_char(c: char) -> Seq<char> {
    if c == '"' {
        seq!['\\', '"']
    } else if c == '\\' {
        seq!['\\', '\\']
    } else if c == '\x08' {
        seq!['\\', 'b']
    } else if c == '\t' {
        seq!['\\', 't']
    } else if c == '\n' {
        seq!['\\', 'n']
    } else if c == '\x0c' {
        seq!['\\', 'f']
    } else if c == '\r' {
        seq!['\\', 'r']
    } else if (c as u32) < 0x20 {
        seq!['\\', 'u', '0', '0', hex_digit((c as u32) as int / 16), hex_digit((c as u32) as int % 16)]
    } else {
        seq![c]
    }
}

/// The body of a JSON string literal that holds `s`.
pub open spec fn escape(s: Seq<char>) -> Seq<char>
    decreases s.len(),
{
    if s.len() == 0 {
        Seq::empty()
    } else {
        escape(s.drop_last()) + escape_char(s.last())
    }
}

/// Escaping keeps a plain character as it is and writes a quote, a backslash
/// or a control character as a backslash sequence of printable characters:
/// no escaped text holds a control character, and a quote or a backslash in
/// it always follows a backslash.
pub proof fn lemma_escape_char(c: char)
    ensures
        (c != '"' && c != '\\' && (c as u32) >= 0x20) ==> escape_char(c) == seq![c],
        !(c != '"' && c != '\\' && (c as u32) >= 0x20) ==> {
            &&& escape_char(c).len() >= 2
            &&& escape_char(c)[0] == '\\'
            &&& forall|i: int| 1 <= i < escape_char(c).len() ==> (#[trigger] escape_char(c)[i] as u32) >= 0x20
                && (escape_char(c)[i] == '"' || escape_char(c)[i] == '\\' ==> i == 1)
        },
{
    if (c as u32) < 0x20 && c != '\x08' && c != '\t' && c != '\n' && c != '\x0c' && c != '\r' {
        let d = (c as u32) as int;
        assert(0 <= d / 16 < 2);
        assert(0 <= d % 16 < 16);
    }
}

/// Escaped text holds no control character.
pub proof fn lemma_escape_printable(s: Seq<char>)
    ensures
        forall|i: int| 0 <= i < escape(s).len() ==> (#[trigger] escape(s)[i] as u32) >= 0x20,
    decreases s.len(),
{
    if s.len() > 0 {
        lemma_escape_printable(s.drop_last());
        lemma_escape_char(s.last());
        let a = escape(s.drop_last());
        let b = escape_char(s.last());
        assert(escape(s) == a + b);
        assert forall|i: int| 0 <= i < escape(s).len() implies (#[trigger] escape(s)[i] as u32) >= 0x20 by {
            if i < a.len() {
                assert(escape(s)[i] == a[i]);
            } else {
                assert(escape(s)[i] == b[i - a.len()]);
            }
        }
    }
}

fn push_hex(out: &mut String, d: u32)
    requires
        d < 16,
    ensures
        final(out)@ == old(out)@.push(hex_digit(d as int)),
{
    let c: u8 = if d < 10 { 48 + d as u8 } else { 87 + d as u8 };
    push_char(out, c as char);
}

fn push_escaped(out: &mut String, c: char)
    ensures
        final(out)@ == old(out)@ + escape_char(c),
{
    let ghost start = out@;
    if c == '"' {
        push_char(out, '\\');
        push_char(out, '"');
    } else if c == '\\' {
        push_char(out, '\\');
        push_char(out, '\\');
    } else if c == '\x08' {
        push_char(out, '\\');
        push_char(out, 'b');
    } else if c == '\t' {
        push_char(out, '\\');
        push_char(out, 't');
    } else if c == '\n' {
        push_char(out, '\\');
        push_char(out, 'n');
    } else if c == '\x0c' {
        push_char(out, '\\');
        push_char(out, 'f');
    } else if c == '\r' {
        push_char(out, '\\');
        push_char(out, 'r');
    } else if (c as u32) < 0x20 {
        push_char(out, '\\');
        push_char(out, 'u');
        push_char(out, '0');
        push_char(out, '0');
        push_hex(out, (c as u32) / 16);
        push_hex(out, (c as u32) % 16);
    } else {
        push_char(out, c);
    }
    assert(out@ =~= start + escape_char(c));
}

/// Appends `s` as the body of a JSON string literal.
pub fn append_escaped(out: &mut String, s: &str)
    ensures
        final(out)@ == old(out)@ + escape(s@),
{
    let cs = chars_of(s);
    let ghost start = out@;
    let mut i: usize = 0;
    assert(cs@.take(0) =~= Seq::<char>::empty());
    while i < cs.len()
        invariant
            cs@ == s@,
            i <= cs@.len(),
            out@ == start + escape(cs@.take(i as int)),
        decreases cs.len() - i,
    {
        push_escaped(out, cs[i]);
        proof {
            let t = cs@.take(i + 1);
            assert(t.drop_last() == cs@.take(i as int));
            assert(t.last() == cs@[i as int]);
        }
        i = i + 1;
    }
    assert(cs@.take(i as int) == s@);
}

/// The decimal digits of `n`.
pub open spec fn decimal(n: nat) -> Seq<char>
    decreases n,
{
    if n < 10 {
        seq![((48 + n) as u8) as char]
    } else {
        decimal(n / 10) + seq![((48 + n % 10) as u8) as char]
    }
}

/// The number that decimal digits stand for.
pub open spec fn decimal_value(s: Seq<char>) -> int
    decreases s.len(),
{
    if s.len() == 0 {
        0
    } else {
        10 * decimal_value(s.drop_last()) + (s.last() as int - 48)
    }
}

/// The decimal text of a number is made of digits, begins with a nonzero
/// one unless the number is zero, and reads back as the number.
pub proof fn lemma_decimal_reads_back(n: nat)
    ensures
        decimal(n).len() >= 1,
        forall|i: int| 0 <= i < decimal(n).len() ==> '0' <= #[trigger] decimal(n)[i] <= '9',
        n > 0 ==> decimal(n)[0] != '0',
        decimal_value(decimal(n)) == n,
    decreases n,
{
    if n >= 10 {
        lemma_decimal_reads_back(n / 10);
        let d = decimal(n);
        let r = decimal(n / 10);
        assert(d == r + seq![((48 + n % 10) as u8) as char]);
        assert(d.drop_last() =~= r);
        assert forall|i: int| 0 <= i < d.len() implies '0' <= #[trigger] d[i] <= '9' by {
            if i < r.len() {
                assert(d[i] == r[i]);
            }
        }
        assert(d[0] == r[0]);
        assert(d.last() as int == 48 + n % 10);
        assert(10 * (n / 10) + n % 10 == n);
        assert(decimal_value(d) == 10 * decimal_value(r) + (d.last() as int - 48));
    } else {
        let d = decimal(n);
        assert(d.drop_last() =~= Seq::<char>::empty());
        assert(d.last() as int == 48 + n);
        assert(decimal_value(d) == 10 * decimal_value(d.drop_last()) + (d.last() as int - 48));
    }
}

pub fn decimal_string(n: u64) -> (r: String)
    ensures
        r@ == decimal(n as nat),
    decreases n,
{
    if n < 10 {
        let mut s = String::new();
        push_char(&mut s, (48 + n as u8) as char);
        assert(s@ =~= decimal(n as nat));
        s
    } else {
        let mut s = decimal_string(n / 10);
        push_char(&mut s, (48 + (n % 10) as u8) as char);
        assert(s@ =~= decimal(n as nat));
        s
    }
}

/// Fragment `num` of `total` of a message, carrying `data`.
pub open spec fn fragment_text(data: Seq<char>, id: Seq<char>, num: nat, total: nat) -> Seq<char> {
    "{\"data\":\""@ + escape(data) + "\",\"id\":\""@ + escape(id) + "\",\"num\":"@ + decimal(num)
        + ",\"op\":\"fragment\",\"total\":"@ + decimal(total) + "}"@
}

fn fragment_message(data: &str, id: &str, num: usize, total: usize) -> (r: String)
    ensures
        r@ == fragment_text(data@, id@, num as nat, total as nat),
{
    let mut r = String::new();
    append(&mut r, "{\"data\":\"");
    append_escaped(&mut r, data);
    append(&mut r, "\",\"id\":\"");
    append_escaped(&mut r, id);
    append(&mut r, "\",\"num\":");
    let n = decimal_string(num as u64);
    append(&mut r, n.as_str());
    append(&mut r, ",\"op\":\"fragment\",\"total\":");
    let t = decimal_string(total as u64);
    append(&mut r, t.as_str());
    append(&mut r, "}");
    assert(r@ =~= fragment_text(data@, id@, num as nat, total as nat));
    r
}

/// The fragments of `text`, numbered from zero.
pub open spec fn fragment_texts(parts: Seq<Seq<char>>, id: Seq<char>) -> Seq<Seq<char>> {
    Seq::new(parts.len(), |i: int| fragment_text(parts[i], id, i as nat, parts.len()))
}

/// The text frames of a JSON `text`: the text itself, or, where `fragment` is set
/// and the text is longer than that many bytes, one `fragment` message per chunk.
pub open spec fn text_frames(text: Seq<char>, fragment: Option<usize>, id: Seq<char>) -> Option<Seq<Seq<char>>> {
    match fragment {
        Some(limit) => if byte_len(text) > limit {
            match chunks(text, limit as int) {
                Some(parts) => Some(fragment_texts(parts, id)),
                None => None,
            }
        } else {
            Some(seq![text])
        },
        None => Some(seq![text]),
    }
}

fn single_frame(t: &str) -> (v: Vec<String>)
    ensures
        views(v@) == seq![t@],
{
    let mut v: Vec<String> = Vec::new();
    v.push(t.to_owned());
    assert(views(v@) =~= seq![t@]);
    v
}

/// Splits a JSON text into frames as `text_frames` states.
pub fn frame_text(text: &str, fragment: Option<usize>, id: &str) -> (r: Result<Vec<String>, Error>)
    ensures
        match r {
            Ok(v) => text_frames(text@, fragment, id@) == Some(views(v@)),
            Err(_) => text_frames(text@, fragment, id@) is None,
        },
{
    match fragment {
        Some(limit) => {
            if text.as_bytes().len() > limit {
                let cs = chars_of(text);
                match cut(&cs, limit) {
                    Some(parts) => {
                        let total = parts.len();
                        let mut out: Vec<String> = Vec::new();
                        let mut i: usize = 0;
                        while i < total
                            invariant
                                total == parts@.len(),
                                i <= total,
                                out@.len() == i,
                                forall|k: int| 0 <= k < i ==> #[trigger] out@[k]@ == fragment_text(parts@[k]@, id@, k as nat, total as nat),
                            decreases total - i,
                        {
                            out.push(fragment_message(parts[i].as_str(), id, i, total));
                            i = i + 1;
                        }
                        assert(views(out@) =~= fragment_texts(views(parts@), id@));
                        assert(byte_len(text@) > limit);
                        assert(chunks(text@, limit as int) == Some(views(parts@)));
                        assert(text_frames(text@, fragment, id@) == Some(views(out@)));
                        Ok(out)
                    },
                    None => Err(Error::new("fragment_size is too small for UTF-8 character")),
                }
            } else {
                let v = single_frame(text);
                assert(text_frames(text@, fragment, id@) == Some(views(v@)));
                Ok(v)
            }
        },
        None => Ok(single_frame(text)),
    }
}

/// The PNG file that the `png` crate writes for an 8-bit RGB image of
/// `width` by `height` pixels holding `pixels`, row by row.
pub uninterp spec fn png_rgb(width: u32, height: u32, pixels: Seq<u8>) -> Seq<u8>;

/// Writes an 8-bit RGB PNG with `png::Encoder` (header, then image data) into
/// memory. Claims that a file it returns is `png_rgb` of its arguments, and
/// that it returns one when both sides are positive and `pixels` holds three
/// bytes for each pixel: the encoder refuses only zero sides, a color and
/// depth that do not go together, and image data of another size, and
/// writing into a `Vec` does not fail.
#[verifier::external_body]
fn write_png(width: u32, height: u32, pixels: &[u8]) -> (r: Option<Vec<u8>>)
    ensures
        r matches Some(b) ==> b@ == png_rgb(width, height, pixels@),
        width > 0 && height > 0 && pixels@.len() == 3 * width * height ==> r is Some,
{
    let mut bytes = Vec::new();
    {
        let mut encoder = png::Encoder::new(&mut bytes, width, height);
        encoder.set_color(png::ColorType::Rgb);
        encoder.set_depth(png::BitDepth::Eight);
        encoder.write_header().ok()?.write_image_data(pixels).ok()?;
    }
    Some(bytes)
}

/// A sextet as a character of the standard Base64 alphabet
/// (`A`-`Z`, `a`-`z`, `0`-`9`, `+`, `/`).
pub open spec fn base64_digit(n: int) -> char {
    if n < 26 {
        (('A' as int) + n) as char
    } else if n < 52 {
        (('a' as int) + n - 26) as char
    } else if n < 62 {
        (('0' as int) + n - 52) as char
    } else if n == 62 {
        '+'
    } else {
        '/'
    }
}

/// `bytes` in standard Base64 with `=` padding: each three bytes as four
/// characters, a last one or two bytes as two or three and the padding.
pub open spec fn base64_text(bytes: Seq<u8>) -> Seq<char>
    decreases bytes.len(),
{
    let a = if bytes.len() > 0 { bytes[0] as int } else { 0 };
    let b = if bytes.len() > 1 { bytes[1] as int } else { 0 };
    let c = if bytes.len() > 2 { bytes[2] as int } else { 0 };
    if bytes.len() == 0 {
        Seq::empty()
    } else if bytes.len() == 1 {
        seq![base64_digit(a / 4), base64_digit((a % 4) * 16), '=', '=']
    } else if bytes.len() == 2 {
        seq![base64_digit(a / 4), base64_digit((a % 4) * 16 + b / 16), base64_digit((b % 16) * 4), '=']
    } else {
        seq![base64_digit(a / 4), base64_digit((a % 4) * 16 + b / 16), base64_digit((b % 16) * 4 + c / 64), base64_digit(c % 64)]
            + base64_text(bytes.skip(3))
    }
}

/// `base64::engine::general_purpose::STANDARD.encode`: claims its result is the
/// standard Base64 text of the input with `=` padding (`base64_text`), as the
/// `STANDARD` alphabet and the `PAD` configuration of that engine give it.
#[verifier::external_body]
pub(crate) fn base64_encode(bytes: &[u8]) -> (r: String)
    ensures
        r@ == base64_text(bytes@),
{
    base64::engine::general_purpose::STANDARD.encode(bytes)
}

/// The side of the square-ish image that holds `n` bytes in three channels:
/// the largest `w` with `3 * w * w <= n`, at least one.
pub open spec fn png_side(n: nat, w: nat) -> bool {
    w >= 1 && 3 * w * w <= n && n < 3 * (w + 1) * (w + 1)
}

pub open spec fn png_width(n: nat) -> nat {
    if n < 3 {
        1
    } else {
        choose|w: nat| #[trigger] png_side(n, w)
    }
}

/// The number of rows that hold `n` bytes at `width` pixels of three bytes.
pub open spec fn png_height(n: nat, width: nat) -> nat {
    ((n + 3 * width - 1) as int / (3 * width) as int) as nat
}

pub proof fn lemma_png_width_unique(n: nat, w: nat)
    requires
        n >= 3,
        w >= 1,
        3 * w * w <= n,
        n < 3 * (w + 1) * (w + 1),
    ensures
        png_width(n) == w,
{
    assert(png_side(n, w));
    let v = choose|v: nat| #[trigger] png_side(n, v);
    if v < w {
        assert(3 * (v + 1) * (v + 1) <= 3 * w * w) by (nonlinear_arith)
            requires v < w;
    } else if w < v {
        assert(3 * (w + 1) * (w + 1) <= 3 * v * v) by (nonlinear_arith)
            requires w < v;
    }
}

fn image_width(n: usize) -> (w: usize)
    ensures
        w == png_width(n as nat),
        w >= 1,
        w * w <= n || w == 1,
{
    if n < 3 {
        return 1;
    }
    let mut w: usize = 1;
    loop
        invariant
            1 <= w,
            3 * w * w <= n,
            n >= 3,
        ensures
            1 <= w,
            3 * w * w <= n,
            n < 3 * (w + 1) * (w + 1),
        decreases n - w,
    {
        assert(w < 0x1_0000_0000) by (nonlinear_arith)
            requires 3 * w * w <= n, n <= usize::MAX, w >= 1;
        let next = (w as u128) + 1;
        assert(3 * next * next < 0x10_0000_0000_0000_0000) by (nonlinear_arith)
            requires next <= 0x1_0000_0000;
        if 3 * next * next > n as u128 {
            break;
        }
        assert(w + 1 <= n) by (nonlinear_arith)
            requires 3 * (w + 1) * (w + 1) <= n, w >= 1;
        w = w + 1;
    }
    proof {
        assert(n < 3 * (w + 1) * (w + 1));
        lemma_png_width_unique(n as nat, w as nat);
        assert(w * w <= n) by (nonlinear_arith)
            requires 3 * w * w <= n;
    }
    w
}

/// The JSON envelope `{"data": <base64>, "op": "png"}` as text.
pub open spec fn png_envelope(data: Seq<char>) -> Seq<char> {
    "{\"data\":\""@ + data + "\",\"op\":\"png\"}"@
}

/// The bytes of `text` padded with newlines to `size`.
pub open spec fn padded(text: Seq<char>, size: nat) -> Seq<u8> {
    encode_utf8(text) + Seq::new((size - byte_len(text)) as nat, |i: int| 10u8)
}

/// `text` as a PNG image in its envelope, from the file `image` of its padded bytes.
pub open spec fn png_image_of(text: Seq<char>) -> (u32, u32, Seq<u8>) {
    let n = byte_len(text) as nat;
    let w = png_width(n);
    let h = png_height(n, w);
    (w as u32, h as u32, padded(text, w * h * 3))
}

/// Whether the image of `text` is too large to make: its bytes do not fit in
/// memory, or a side does not fit in a PNG header.
pub open spec fn png_too_large(text: Seq<char>) -> bool {
    let n = byte_len(text) as nat;
    let w = png_width(n);
    let h = png_height(n, w);
    w * h * 3 > usize::MAX || h > u32::MAX || w > u32::MAX
}

/// Every number of bytes from three up has a side.
proof fn lemma_png_side_exists(n: nat)
    requires
        n >= 3,
    ensures
        exists|w: nat| #[trigger] png_side(n, w),
    decreases n,
{
    if n == 3 {
        let one: nat = 1;
        assert(3 * one * one <= n && n < 3 * (one + 1) * (one + 1)) by (nonlinear_arith)
            requires n == 3, one == 1;
        assert(png_side(n, one));
    } else {
        lemma_png_side_exists((n - 1) as nat);
        let w = choose|w: nat| #[trigger] png_side((n - 1) as nat, w);
        if 3 * (w + 1) * (w + 1) <= n {
            assert(n < 3 * (w + 2) * (w + 2)) by (nonlinear_arith)
                requires n - 1 < 3 * (w + 1) * (w + 1);
            assert(png_side(n, w + 1));
        } else {
            assert(png_side(n, w));
        }
    }
}

/// The image that carries `n > 0` bytes of text is as near square as three
/// bytes a pixel allow (the widest `w` with `3 * w * w` bytes within `n`),
/// has just enough rows to hold every byte, less than one row of them
/// padding, and holds the text's bytes followed by newlines.
pub proof fn lemma_png_geometry(text: Seq<char>)
    requires
        byte_len(text) > 0,
    ensures
        ({
            let n = byte_len(text) as nat;
            let w = png_width(n);
            let h = png_height(n, w);
            let pixels = padded(text, w * h * 3);
            &&& w >= 1
            &&& n >= 3 ==> 3 * w * w <= n < 3 * (w + 1) * (w + 1)
            &&& 3 * w * h >= n
            &&& 3 * w * (h - 1) < n
            &&& pixels.len() == 3 * w * h
            &&& pixels.take(n as int) == encode_utf8(text)
            &&& forall|i: int| n <= i < pixels.len() ==> pixels[i] == 10u8
        }),
{
    let n = byte_len(text) as nat;
    if n >= 3 {
        lemma_png_side_exists(n);
    }
    let w = png_width(n);
    assert(w >= 1);
    let h = png_height(n, w);
    let c = 3 * w;
    assert(c * h >= n && c * (h - 1) < n) by (nonlinear_arith)
        requires
            c >= 3,
            h == (n + c - 1) as int / c as int,
            n >= 1;
    assert(3 * w * h == c * h && w * h * 3 == c * h) by (nonlinear_arith)
        requires c == 3 * w;
    let pixels = padded(text, w * h * 3);
    assert(pixels.take(n as int) =~= encode_utf8(text));
}

/// Encodes a JSON text as the PNG envelope of the `png` compression.
pub fn png_text(text: &str) -> (r: Result<String, Error>)
    ensures
        png_too_large(text@) ==> (r matches Err(e) && e.message@ == "image too large"@),
        !png_too_large(text@) ==> (r matches Err(e) ==> e.message@ == "PNG encoding failed"@),
        !png_too_large(text@) && text@.len() > 0 ==> r is Ok,
        r matches Ok(s) ==> {
            let (w, h, pixels) = png_image_of(text@);
            s@ == png_envelope(base64_text(png_rgb(w, h, pixels)))
        },
{
    let mut rgb = text.as_bytes_vec();
    let n = rgb.len();
    let width = image_width(n);
    let cell = 3 * (width as u128);
    let height = ((n as u128) + cell - 1) / cell;
    assert(width <= 0x1_0000_0000 && height <= n + 1) by (nonlinear_arith)
        requires
            width * width <= n || width == 1,
            n <= usize::MAX,
            width >= 1,
            cell == 3 * width,
            height as int == (n + cell - 1) as int / cell as int;
    assert((width as u128) * height * 3 <= 0x4_0000_0000_0000_0000_0000_0000) by (nonlinear_arith)
        requires width <= 0x1_0000_0000, height <= n + 1, n <= usize::MAX;
    let size = (width as u128) * height * 3;
    if size > usize::MAX as u128 || height > u32::MAX as u128 || width > u32::MAX as usize {
        return Err(Error::new("image too large"));
    }
    assert(size >= n) by (nonlinear_arith)
        requires
            cell == 3 * width,
            height as int == (n + cell - 1) as int / cell as int,
            size == width * height * 3,
            width >= 1;
    let size = size as usize;
    let ghost start = rgb@;
    while rgb.len() < size
        invariant
            n <= rgb@.len() <= size,
            rgb@ == start + Seq::new((rgb@.len() - n) as nat, |i: int| 10u8),
        decreases size - rgb.len(),
    {
        rgb.push(10u8);
        assert(rgb@ =~= start + Seq::new((rgb@.len() - n) as nat, |i: int| 10u8));
    }
    proof {
        if n > 0 {
            assert(height >= 1) by (nonlinear_arith)
                requires
                    n >= 1,
                    cell >= 3,
                    height as int == (n + cell - 1) as int / cell as int;
        }
        assert(rgb@.len() == 3 * width * height) by (nonlinear_arith)
            requires rgb@.len() == size, size == width * height * 3;
    }
    let image = write_png(width as u32, height as u32, rgb.as_slice());
    match image {
        Some(bytes) => {
            let data = base64_encode(bytes.as_slice());
            let mut out = String::new();
            append(&mut out, "{\"data\":\"");
            append(&mut out, data.as_str());
            append(&mut out, "\",\"op\":\"png\"}");
            proof {
                let (w, h, pixels) = png_image_of(text@);
                assert(pixels =~= rgb@);
                assert(out@ =~= png_envelope(base64_text(png_rgb(w, h, pixels))));
            }
            Ok(out)
        },
        None => Err(Error::new("PNG encoding failed")),
    }
}

/// The text frames of a JSON text sent to a client with `options`: `png` wraps
/// the text into its envelope first. (The binary compressions send one CBOR frame
/// instead, which the caller writes.)
pub fn encode_text(text: &str, options: &Options, id: &str) -> (r: Result<Vec<String>, Error>)
    ensures
        options.compression != Compression::Png ==> match r {
            Ok(v) => text_frames(text@, options.fragment, id@) == Some(views(v@)),
            Err(_) => text_frames(text@, options.fragment, id@) is None,
        },
        options.compression == Compression::Png ==> (r matches Ok(v) ==> {
            let (w, h, pixels) = png_image_of(text@);
            text_frames(png_envelope(base64_text(png_rgb(w, h, pixels))), options.fragment, id@) == Some(views(v@))
        }),
        options.compression == Compression::Png && !png_too_large(text@) && text@.len() > 0 ==> {
            let (w, h, pixels) = png_image_of(text@);
            r is Ok <==> text_frames(png_envelope(base64_text(png_rgb(w, h, pixels))), options.fragment, id@) is Some
        },
{
    if options.compression == Compression::Png {
        let wrapped = png_text(text)?;
        frame_text(wrapped.as_str(), options.fragment, id)
    } else {
        frame_text(text, options.fragment, id)
    }
}

} // verus!
