//! Segment codec: one command record to and from one line of text.
//!
//! A record is serialized as a JSON object with an explicit variant tag,
//! `{"Set":{"key":"…","value":"…"}}` or `{"Remove":{"key":"…"}}`, with the
//! string escaping that canonical JSON writers produce: `"` and `\` get a
//! backslash, the control characters 0x08, 0x09, 0x0A, 0x0C and 0x0D get their
//! short escapes, and every other character below 0x20 becomes `\u00xx` with
//! lowercase hex digits. The decoder accepts exactly the encoder's output, so
//! any line that is not a canonical encoding is reported as corrupt.

use vstd::prelude::*;

verus! {

/// One command record: the tagged union written to the log.
pub enum CommandLog {
    SetCmd { key: String, value: String },
    RemoveCmd { key: String },
}

/// The mathematical model of a command record.
pub enum CommandModel {
    SetCmd { key: Seq<char>, value: Seq<char> },
    RemoveCmd { key: Seq<char> },
}

impl View for CommandLog {
    type V = CommandModel;

    open spec fn view(&self) -> CommandModel {
        match self {
            CommandLog::SetCmd { key, value } => CommandModel::SetCmd { key: key@, value: value@ },
            CommandLog::RemoveCmd { key } => CommandModel::RemoveCmd { key: key@ },
        }
    }
}

pub open spec fn set_prefix() -> Seq<char> {
    seq!['{', '"', 'S', 'e', 't', '"', ':', '{', '"', 'k', 'e', 'y', '"', ':', '"']
}

pub open spec fn remove_prefix() -> Seq<char> {
    seq!['{', '"', 'R', 'e', 'm', 'o', 'v', 'e', '"', ':', '{', '"', 'k', 'e', 'y', '"', ':', '"']
}

/// What stands between the key's closing quote and the value's opening quote.
pub open spec fn value_sep() -> Seq<char> {
    seq![',', '"', 'v', 'a', 'l', 'u', 'e', '"', ':', '"']
}

/// What follows the last closing quote.
pub open spec fn obj_end() -> Seq<char> {
    seq!['}', '}']
}

/// A character that is written as itself inside a JSON string.
pub open spec fn is_plain_char(c: char) -> bool {
    (c as u32) >= 0x20 && c != '"' && c != '\\'
}

/// The characters with a two-character escape, keyed by the character after
/// the backslash; the decoded character is returned.
pub open spec fn short_escape_code(c: char) -> Option<char> {
    if c == '"' {
        Some('"')
    } else if c == '\\' {
        Some('\\')
    } else if c == 'b' {
        Some('\u{8}')
    } else if c == 't' {
        Some('\t')
    } else if c == 'n' {
        Some('\n')
    } else if c == 'f' {
        Some('\u{c}')
    } else if c == 'r' {
        Some('\r')
    } else {
        None
    }
}

/// Whether `c` is one of the five characters with a two-character escape.
pub open spec fn has_short_escape(c: char) -> bool {
    c == '"' || c == '\\' || c == '\u{8}' || c == '\t' || c == '\n' || c == '\u{c}' || c == '\r'
}

/// The lowercase hex digit for `n`, defined for `0 <= n < 16`.
pub open spec fn hex_digit_char(n: int) -> char {
    if n == 0 { '0' } else if n == 1 { '1' } else if n == 2 { '2' } else if n == 3 { '3' }
    else if n == 4 { '4' } else if n == 5 { '5' } else if n == 6 { '6' } else if n == 7 { '7' }
    else if n == 8 { '8' } else if n == 9 { '9' } else if n == 10 { 'a' } else if n == 11 { 'b' }
    else if n == 12 { 'c' } else if n == 13 { 'd' } else if n == 14 { 'e' } else { 'f' }
}

/// The value of a lowercase hex digit, or -1.
pub open spec fn hex_val(c: char) -> int {
    if c == '0' { 0 } else if c == '1' { 1 } else if c == '2' { 2 } else if c == '3' { 3 }
    else if c == '4' { 4 } else if c == '5' { 5 } else if c == '6' { 6 } else if c == '7' { 7 }
    else if c == '8' { 8 } else if c == '9' { 9 } else if c == 'a' { 10 } else if c == 'b' { 11 }
    else if c == 'c' { 12 } else if c == 'd' { 13 } else if c == 'e' { 14 } else if c == 'f' { 15 }
    else { -1 }
}

/// How one character is written inside a JSON string.
pub open spec fn escape_char(c: char) -> Seq<char> {
    if c == '"' {
        seq!['\\', '"']
    } else if c == '\\' {
        seq!['\\', '\\']
    } else if c == '\u{8}' {
        seq!['\\', 'b']
    } else if c == '\t' {
        seq!['\\', 't']
    } else if c == '\n' {
        seq!['\\', 'n']
    } else if c == '\u{c}' {
        seq!['\\', 'f']
    } else if c == '\r' {
        seq!['\\', 'r']
    } else if (c as u32) < 0x20 {
        seq!['\\', 'u', '0', '0', hex_digit_char((c as u32) as int / 16), hex_digit_char(
            (c as u32) as int % 16,
        )]
    } else {
        seq![c]
    }
}

/// How a whole string is written inside a JSON string.
pub open spec fn escape(s: Seq<char>) -> Seq<char>
    decreases s.len(),
{
    if s.len() == 0 {
        Seq::empty()
    } else {
        escape_char(s[0]) + escape(s.drop_first())
    }
}

/// The line that encodes one record. The trailing newline is not part of it.
pub open spec fn spec_encode(c: CommandModel) -> Seq<char> {
    match c {
        CommandModel::SetCmd { key, value } => set_prefix() + escape(key) + seq!['"'] + value_sep()
            + escape(value) + seq!['"'] + obj_end(),
        CommandModel::RemoveCmd { key } => remove_prefix() + escape(key) + seq!['"'] + obj_end(),
    }
}

/// Reads an escaped string up to and including its closing quote; yields the
/// decoded string and the number of characters consumed. Accepts exactly what
/// `escape` writes.
pub open spec fn parse_str_body(s: Seq<char>) -> Option<(Seq<char>, int)>
    decreases s.len(),
{
    if s.len() == 0 {
        None
    } else if s[0] == '"' {
        Some((Seq::empty(), 1))
    } else if s[0] == '\\' {
        if s.len() < 2 {
            None
        } else {
            match short_escape_code(s[1]) {
                Some(d) => match parse_str_body(s.skip(2)) {
                    Some(r) => Some((seq![d] + r.0, r.1 + 2)),
                    None => None,
                },
                None => {
                    if s[1] == 'u' && s.len() >= 6 && s[2] == '0' && s[3] == '0' && hex_val(s[4])
                        >= 0 && hex_val(s[5]) >= 0 {
                        let v = hex_val(s[4]) * 16 + hex_val(s[5]);
                        if v < 0x20 && !has_short_escape((v as u8) as char) {
                            match parse_str_body(s.skip(6)) {
                                Some(r) => Some((seq![(v as u8) as char] + r.0, r.1 + 6)),
                                None => None,
                            }
                        } else {
                            None
                        }
                    } else {
                        None
                    }
                },
            }
        }
    } else if is_plain_char(s[0]) {
        match parse_str_body(s.skip(1)) {
            Some(r) => Some((seq![s[0]] + r.0, r.1 + 1)),
            None => None,
        }
    } else {
        None
    }
}

/// The record a line decodes to, or `None` when the line is corrupt.
pub open spec fn spec_decode(line: Seq<char>) -> Option<CommandModel> {
    if line.len() >= 15 && line.subrange(0, 15) == set_prefix() {
        match parse_str_body(line.skip(15)) {
            Some((key, n1)) => {
                let rest = line.skip(15 + n1);
                if rest.len() >= 10 && rest.subrange(0, 10) == value_sep() {
                    match parse_str_body(rest.skip(10)) {
                        Some((value, n2)) => {
                            if rest.skip(10 + n2) == obj_end() {
                                Some(CommandModel::SetCmd { key, value })
                            } else {
                                None
                            }
                        },
                        None => None,
                    }
                } else {
                    None
                }
            },
            None => None,
        }
    } else if line.len() >= 18 && line.subrange(0, 18) == remove_prefix() {
        match parse_str_body(line.skip(18)) {
            Some((key, n1)) => {
                if line.skip(18 + n1) == obj_end() {
                    Some(CommandModel::RemoveCmd { key })
                } else {
                    None
                }
            },
            None => None,
        }
    } else {
        None
    }
}

/// The key a record carries, whichever variant it is.
pub open spec fn model_key(c: CommandModel) -> Seq<char> {
    match c {
        CommandModel::SetCmd { key, .. } => key,
        CommandModel::RemoveCmd { key } => key,
    }
}

pub proof fn lemma_escape_concat(a: Seq<char>, b: Seq<char>)
    ensures
        escape(a + b) == escape(a) + escape(b),
    decreases a.len(),
{
    if a.len() == 0 {
        assert(a + b =~= b);
        assert(escape(a) + escape(b) =~= escape(b));
    } else {
        assert((a + b).drop_first() =~= a.drop_first() + b);
        lemma_escape_concat(a.drop_first(), b);
        assert(escape(a + b) =~= escape(a) + escape(b));
    }
}

/// Escaping never writes a newline, so one line holds one record.
pub proof fn lemma_escape_no_newline(s: Seq<char>)
    ensures
        forall|i: int| 0 <= i < escape(s).len() ==> escape(s)[i] != '\n',
    decreases s.len(),
{
    if s.len() != 0 {
        lemma_escape_no_newline(s.drop_first());
        assert forall|i: int| 0 <= i < escape(s).len() implies escape(s)[i] != '\n' by {
            if i < escape_char(s[0]).len() {
                assert(escape(s)[i] == escape_char(s[0])[i]);
            } else {
                assert(escape(s)[i] == escape(s.drop_first())[i - escape_char(s[0]).len()]);
            }
        }
    }
}

/// Parsing a string body consumes what `escape` wrote, quote included, and
/// yields the original string back.
pub proof fn lemma_parse_escape(s: Seq<char>, rest: Seq<char>)
    ensures
        parse_str_body(escape(s) + seq!['"'] + rest) == Some((s, escape(s).len() as int + 1)),
    decreases s.len(),
{
    let es = escape(s) + seq!['"'] + rest;
    if s.len() == 0 {
        assert(es[0] == '"');
        assert(s =~= Seq::<char>::empty());
    } else {
        let c = s[0];
        let s1 = s.drop_first();
        let tail2 = escape(s1) + seq!['"'] + rest;
        lemma_parse_escape(s1, rest);
        assert(es =~= escape_char(c) + tail2);
        let ec = escape_char(c);
        assert(forall|j: int| 0 <= j < ec.len() ==> es[j] == ec[j]);
        assert(seq![c] + s1 =~= s);
        if c == '"' || c == '\\' || c == '\u{8}' || c == '\t' || c == '\n' || c == '\u{c}' || c
            == '\r' {
            assert(ec.len() == 2);
            assert(es[0] == '\\');
            assert(short_escape_code(es[1]) == Some(c));
            assert(es.skip(2) =~= tail2);
        } else if (c as u32) < 0x20 {
            let cv = (c as u32) as int;
            assert(ec.len() == 6);
            assert(es[0] == '\\' && es[1] == 'u' && es[2] == '0' && es[3] == '0');
            assert(short_escape_code('u') is None);
            assert(es[4] == hex_digit_char(cv / 16) && es[5] == hex_digit_char(cv % 16));
            assert(hex_val(hex_digit_char(cv / 16)) == cv / 16);
            assert(hex_val(hex_digit_char(cv % 16)) == cv % 16);
            let v = hex_val(es[4]) * 16 + hex_val(es[5]);
            assert(v == cv);
            assert(0 <= v < 0x20);
            let p = (v as u8) as char;
            assert((v as u8) as int == v);
            assert(p as int == v);
            assert(p as u32 == p as int);
            assert(p as u32 == c as u32);
            vstd::utf8::char_u32_cast(c, c as u32);
            vstd::utf8::char_u32_cast(p, p as u32);
            assert(p == c);
            assert(!has_short_escape((v as u8) as char));
            assert(!has_short_escape((v as u8) as char));
            assert(es.skip(6) =~= tail2);
        } else {
            assert(ec.len() == 1);
            assert(es[0] == c);
            assert(is_plain_char(c));
            assert(es.skip(1) =~= tail2);
        }
    }
}

/// Round trip: decoding an encoded record yields the record back, so any
/// line the writer appends is read back as the same command.
#[verifier::rlimit(50)]
pub proof fn lemma_decode_encode(c: CommandModel)
    ensures
        spec_decode(spec_encode(c)) == Some(c),
{
    match c {
        CommandModel::SetCmd { key, value } => {
            let line = spec_encode(c);
            let rest1 = value_sep() + escape(value) + seq!['"'] + obj_end();
            assert(line.subrange(0, 15) =~= set_prefix());
            assert(line.skip(15) =~= escape(key) + seq!['"'] + rest1);
            lemma_parse_escape(key, rest1);
            let n1: int = escape(key).len() as int + 1;
            assert(parse_str_body(line.skip(15)) == Some((key, n1)));
            let rest = line.skip(15 + n1);
            assert(rest =~= rest1);
            assert(rest.subrange(0, 10) =~= value_sep());
            assert(rest.skip(10) =~= escape(value) + seq!['"'] + obj_end());
            lemma_parse_escape(value, obj_end());
            let n2: int = escape(value).len() as int + 1;
            assert(rest.skip(10 + n2) =~= obj_end());
        },
        CommandModel::RemoveCmd { key } => {
            let line = spec_encode(c);
            assert(line.len() >= 18);
            if line.len() >= 15 && line.subrange(0, 15) == set_prefix() {
                assert(line.subrange(0, 15)[2] == line[2]);
                assert(line[2] == 'R');
                assert(set_prefix()[2] == 'S');
                assert(false);
            }
            assert(line.subrange(0, 18) =~= remove_prefix());
            assert(line.skip(18) =~= escape(key) + seq!['"'] + obj_end());
            lemma_parse_escape(key, obj_end());
            let n1: int = escape(key).len() as int + 1;
            assert(line.skip(18 + n1) =~= obj_end());
        },
    }
}

/// An encoded line never holds a raw newline.
pub proof fn lemma_encode_no_newline(c: CommandModel)
    ensures
        forall|i: int| 0 <= i < spec_encode(c).len() ==> spec_encode(c)[i] != '\n',
{
    match c {
        CommandModel::SetCmd { key, value } => {
            lemma_escape_no_newline(key);
            lemma_escape_no_newline(value);
        },
        CommandModel::RemoveCmd { key } => {
            lemma_escape_no_newline(key);
        },
    }
}

/// Relies on std's `String::push`: appends the given character to the end of
/// the string.
#[verifier::external_body]
pub(crate) fn push_char(s: &mut String, c: char)
    ensures
        final(s)@ == old(s)@.push(c),
{
    s.push(c);
}

fn hex_char(n: u32) -> (c: char)
    requires
        n < 16,
    ensures
        c == hex_digit_char(n as int),
{
    if n == 0 { '0' } else if n == 1 { '1' } else if n == 2 { '2' } else if n == 3 { '3' }
    else if n == 4 { '4' } else if n == 5 { '5' } else if n == 6 { '6' } else if n == 7 { '7' }
    else if n == 8 { '8' } else if n == 9 { '9' } else if n == 10 { 'a' } else if n == 11 { 'b' }
    else if n == 12 { 'c' } else if n == 13 { 'd' } else if n == 14 { 'e' } else { 'f' }
}

pub(crate) fn hex_value(c: char) -> (r: Option<u32>)
    ensures
        match r {
            Some(v) => hex_val(c) == v as int && v < 16,
            None => hex_val(c) < 0,
        },
{
    if c == '0' { Some(0) } else if c == '1' { Some(1) } else if c == '2' { Some(2) }
    else if c == '3' { Some(3) } else if c == '4' { Some(4) } else if c == '5' { Some(5) }
    else if c == '6' { Some(6) } else if c == '7' { Some(7) } else if c == '8' { Some(8) }
    else if c == '9' { Some(9) } else if c == 'a' { Some(10) } else if c == 'b' { Some(11) }
    else if c == 'c' { Some(12) } else if c == 'd' { Some(13) } else if c == 'e' { Some(14) }
    else if c == 'f' { Some(15) } else { None }
}

fn push_escaped_char(out: &mut Vec<char>, c: char)
    ensures
        final(out)@ == old(out)@ + escape_char(c),
{
    if c == '"' {
        out.push('\\');
        out.push('"');
    } else if c == '\\' {
        out.push('\\');
        out.push('\\');
    } else if c == '\u{8}' {
        out.push('\\');
        out.push('b');
    } else if c == '\t' {
        out.push('\\');
        out.push('t');
    } else if c == '\n' {
        out.push('\\');
        out.push('n');
    } else if c == '\u{c}' {
        out.push('\\');
        out.push('f');
    } else if c == '\r' {
        out.push('\\');
        out.push('r');
    } else {
        let v = c as u32;
        if v < 0x20 {
            out.push('\\');
            out.push('u');
            out.push('0');
            out.push('0');
            out.push(hex_char(v / 16));
            out.push(hex_char(v % 16));
        } else {
            out.push(c);
        }
    }
    assert(out@ =~= old(out)@ + escape_char(c));
}

pub proof fn lemma_escape_singleton(c: char)
    ensures
        escape(seq![c]) == escape_char(c),
{
    assert(seq![c].drop_first() =~= Seq::<char>::empty());
    assert(escape(seq![c]) == escape_char(c) + escape(Seq::<char>::empty()));
    assert(escape_char(c) + Seq::<char>::empty() =~= escape_char(c));
}

fn push_escaped(out: &mut Vec<char>, s: &String)
    ensures
        final(out)@ == old(out)@ + escape(s@),
{
    let ghost base = out@;
    let n = s.as_str().unicode_len();
    assert(s@.subrange(0, 0) =~= Seq::<char>::empty());
    for i in 0..n
        invariant
            n == s@.len(),
            out@ == base + escape(s@.subrange(0, i as int)),
    {
        let c = s.as_str().get_char(i);
        push_escaped_char(out, c);
        proof {
            let pre = s@.subrange(0, i as int);
            assert(s@.subrange(0, i + 1) =~= pre + seq![s@[i as int]]);
            lemma_escape_concat(pre, seq![s@[i as int]]);
            lemma_escape_singleton(s@[i as int]);
            assert(out@ =~= base + escape(s@.subrange(0, i + 1)));
        }
    }
    assert(s@.subrange(0, n as int) =~= s@);
}

/// Encodes one record as its log line, the trailing newline not included.
pub fn encode_command(cmd: &CommandLog) -> (out: Vec<char>)
    ensures
        out@ == spec_encode(cmd@),
{
    let mut out: Vec<char> = Vec::new();
    match cmd {
        CommandLog::SetCmd { key, value } => {
            out.push('{');
            out.push('"');
            out.push('S');
            out.push('e');
            out.push('t');
            out.push('"');
            out.push(':');
            out.push('{');
            out.push('"');
            out.push('k');
            out.push('e');
            out.push('y');
            out.push('"');
            out.push(':');
            out.push('"');
            assert(out@ =~= set_prefix());
            push_escaped(&mut out, key);
            out.push('"');
            out.push(',');
            out.push('"');
            out.push('v');
            out.push('a');
            out.push('l');
            out.push('u');
            out.push('e');
            out.push('"');
            out.push(':');
            out.push('"');
            assert(out@ =~= set_prefix() + escape(key@) + seq!['"'] + value_sep());
            push_escaped(&mut out, value);
            out.push('"');
            out.push('}');
            out.push('}');
            assert(out@ =~= spec_encode(cmd@));
        },
        CommandLog::RemoveCmd { key } => {
            out.push('{');
            out.push('"');
            out.push('R');
            out.push('e');
            out.push('m');
            out.push('o');
            out.push('v');
            out.push('e');
            out.push('"');
            out.push(':');
            out.push('{');
            out.push('"');
            out.push('k');
            out.push('e');
            out.push('y');
            out.push('"');
            out.push(':');
            out.push('"');
            assert(out@ =~= remove_prefix());
            push_escaped(&mut out, key);
            out.push('"');
            out.push('}');
            out.push('}');
            assert(out@ =~= spec_encode(cmd@));
        },
    }
    out
}

fn short_escape_exec(c: char) -> (r: Option<char>)
    ensures
        r == short_escape_code(c),
{
    if c == '"' { Some('"') } else if c == '\\' { Some('\\') } else if c == 'b' { Some('\u{8}') }
    else if c == 't' { Some('\t') } else if c == 'n' { Some('\n') } else if c == 'f' {
        Some('\u{c}')
    } else if c == 'r' { Some('\r') } else { None }
}

fn is_short_escapable(c: char) -> (b: bool)
    ensures
        b == has_short_escape(c),
{
    c == '"' || c == '\\' || c == '\u{8}' || c == '\t' || c == '\n' || c == '\u{c}' || c == '\r'
}

/// Reads one escaped string from `line` starting at `start`, up to and
/// including its closing quote; yields the decoded string and how many
/// characters were consumed.
fn parse_string_at(line: &Vec<char>, start: usize) -> (r: Option<(String, usize)>)
    requires
        start <= line@.len(),
    ensures
        match r {
            Some(p) => {
                &&& parse_str_body(line@.skip(start as int)) == Some((p.0@, p.1 as int))
                &&& start + p.1 <= line@.len()
            },
            None => parse_str_body(line@.skip(start as int)) is None,
        },
{
    let mut i = start;
    let mut acc = String::new();
    loop
        invariant
            start <= i <= line@.len(),
            match parse_str_body(line@.skip(i as int)) {
                Some(r2) => parse_str_body(line@.skip(start as int)) == Some(
                    (acc@ + r2.0, (i - start) + r2.1),
                ),
                None => parse_str_body(line@.skip(start as int)) is None,
            },
        decreases line@.len() - i,
    {
        proof {
            assert(line@.skip(i as int).len() == line@.len() - i);
        }
        if i >= line.len() {
            return None;
        }
        let c = line[i];
        proof {
            assert(line@.skip(i as int)[0] == line@[i as int]);
        }
        if c == '"' {
            proof {
                assert(parse_str_body(line@.skip(i as int)) == Some(
                    (Seq::<char>::empty(), 1int),
                ));
                assert(acc@ + Seq::<char>::empty() =~= acc@);
            }
            return Some((acc, i + 1 - start));
        } else if c == '\\' {
            if line.len() - i < 2 {
                return None;
            }
            let c2 = line[i + 1];
            proof {
                assert(line@.skip(i as int)[1] == line@[i + 1]);
            }
            match short_escape_exec(c2) {
                Some(d) => {
                    proof {
                        assert(line@.skip(i as int).skip(2) =~= line@.skip(i + 2));
                        let ghost s_i = line@.skip(i as int);
                        match parse_str_body(line@.skip(i + 2)) {
                            Some(r2) => {
                                assert(parse_str_body(s_i) == Some((seq![d] + r2.0, r2.1 + 2)));
                                assert(acc@ + (seq![d] + r2.0) =~= acc@.push(d) + r2.0);
                            },
                            None => {
                                assert(parse_str_body(s_i) is None);
                            },
                        }
                    }
                    push_char(&mut acc, d);
                    i = i + 2;
                },
                None => {
                    if c2 != 'u' {
                        return None;
                    }
                    if line.len() - i < 6 {
                        return None;
                    }
                    let c3 = line[i + 2];
                    let c4 = line[i + 3];
                    proof {
                        assert(line@.skip(i as int)[2] == line@[i + 2]);
                        assert(line@.skip(i as int)[3] == line@[i + 3]);
                        assert(line@.skip(i as int)[4] == line@[i + 4]);
                        assert(line@.skip(i as int)[5] == line@[i + 5]);
                    }
                    if c3 != '0' || c4 != '0' {
                        return None;
                    }
                    let h1 = hex_value(line[i + 4]);
                    let h2 = hex_value(line[i + 5]);
                    match (h1, h2) {
                        (Some(v1), Some(v2)) => {
                            let v = v1 * 16 + v2;
                            if v >= 0x20 {
                                return None;
                            }
                            let d = (v as u8) as char;
                            if is_short_escapable(d) {
                                proof {
                                    assert((v as int as u8) as char == d);
                                }
                                return None;
                            }
                            proof {
                                assert((v as int as u8) as char == d);
                                assert(line@.skip(i as int).skip(6) =~= line@.skip(i + 6));
                                let ghost s_i = line@.skip(i as int);
                                match parse_str_body(line@.skip(i + 6)) {
                                    Some(r2) => {
                                        assert(parse_str_body(s_i) == Some(
                                            (seq![d] + r2.0, r2.1 + 6),
                                        ));
                                        assert(acc@ + (seq![d] + r2.0) =~= acc@.push(d) + r2.0);
                                    },
                                    None => {
                                        assert(parse_str_body(s_i) is None);
                                    },
                                }
                            }
                            push_char(&mut acc, d);
                            i = i + 6;
                        },
                        _ => {
                            return None;
                        },
                    }
                },
            }
        } else if (c as u32) >= 0x20 {
            proof {
                assert(is_plain_char(c));
                assert(line@.skip(i as int).skip(1) =~= line@.skip(i + 1));
                let ghost s_i = line@.skip(i as int);
                match parse_str_body(line@.skip(i + 1)) {
                    Some(r2) => {
                        assert(parse_str_body(s_i) == Some((seq![c] + r2.0, r2.1 + 1)));
                        assert(acc@ + (seq![c] + r2.0) =~= acc@.push(c) + r2.0);
                    },
                    None => {
                        assert(parse_str_body(s_i) is None);
                    },
                }
            }
            push_char(&mut acc, c);
            i = i + 1;
        } else {
            return None;
        }
    }
}

fn is_set_prefixed(line: &Vec<char>) -> (b: bool)
    ensures
        b == (line@.len() >= 15 && line@.subrange(0, 15) == set_prefix()),
{
    if line.len() < 15 {
        return false;
    }
    let ok = line[0] == '{' && line[1] == '"' && line[2] == 'S' && line[3] == 'e' && line[4] == 't'
        && line[5] == '"' && line[6] == ':' && line[7] == '{' && line[8] == '"' && line[9] == 'k'
        && line[10] == 'e' && line[11] == 'y' && line[12] == '"' && line[13] == ':' && line[14]
        == '"';
    proof {
        if ok {
            assert(line@.subrange(0, 15) =~= set_prefix());
        } else {
            if line@.subrange(0, 15) == set_prefix() {
                assert(forall|j: int| 0 <= j < 15 ==> line@.subrange(0, 15)[j] == line@[j]);
                assert(false);
            }
        }
    }
    ok
}

fn is_remove_prefixed(line: &Vec<char>) -> (b: bool)
    ensures
        b == (line@.len() >= 18 && line@.subrange(0, 18) == remove_prefix()),
{
    if line.len() < 18 {
        return false;
    }
    let ok = line[0] == '{' && line[1] == '"' && line[2] == 'R' && line[3] == 'e' && line[4] == 'm'
        && line[5] == 'o' && line[6] == 'v' && line[7] == 'e' && line[8] == '"' && line[9] == ':'
        && line[10] == '{' && line[11] == '"' && line[12] == 'k' && line[13] == 'e' && line[14]
        == 'y' && line[15] == '"' && line[16] == ':' && line[17] == '"';
    proof {
        if ok {
            assert(line@.subrange(0, 18) =~= remove_prefix());
        } else {
            if line@.subrange(0, 18) == remove_prefix() {
                assert(forall|j: int| 0 <= j < 18 ==> line@.subrange(0, 18)[j] == line@[j]);
                assert(false);
            }
        }
    }
    ok
}

fn has_value_sep_at(line: &Vec<char>, p: usize) -> (b: bool)
    requires
        p <= line@.len(),
    ensures
        b == (line@.skip(p as int).len() >= 10 && line@.skip(p as int).subrange(0, 10)
            == value_sep()),
{
    if line.len() - p < 10 {
        return false;
    }
    let ok = line[p] == ',' && line[p + 1] == '"' && line[p + 2] == 'v' && line[p + 3] == 'a'
        && line[p + 4] == 'l' && line[p + 5] == 'u' && line[p + 6] == 'e' && line[p + 7] == '"'
        && line[p + 8] == ':' && line[p + 9] == '"';
    proof {
        let rest = line@.skip(p as int);
        assert(forall|j: int| 0 <= j < 10 ==> rest.subrange(0, 10)[j] == line@[p + j]);
        if ok {
            assert(rest.subrange(0, 10) =~= value_sep());
        } else {
            if rest.subrange(0, 10) == value_sep() {
                assert(false);
            }
        }
    }
    ok
}

fn is_obj_end_at(line: &Vec<char>, p: usize) -> (b: bool)
    requires
        p <= line@.len(),
    ensures
        b == (line@.skip(p as int) == obj_end()),
{
    let b = line.len() - p == 2 && line[p] == '}' && line[p + 1] == '}';
    proof {
        let rest = line@.skip(p as int);
        assert(rest.len() == line@.len() - p);
        if b {
            assert(rest =~= obj_end());
        } else {
            if rest == obj_end() {
                assert(rest[0] == line@[p as int] && rest[1] == line@[p + 1]);
                assert(false);
            }
        }
    }
    b
}

/// Decodes one log line, or reports it corrupt. Accepts exactly the encoder's
/// output: `decode_command` of an `encode_command` line gives the record back,
/// and any line no record encodes to gives `None`.
pub fn decode_command(line: &Vec<char>) -> (r: Option<CommandLog>)
    ensures
        match r {
            Some(cmd) => spec_decode(line@) == Some(cmd@),
            None => spec_decode(line@) is None,
        },
{
    let llen: usize = line.len();
    if llen < 15 {
        return None;
    }
    if is_set_prefixed(line) {
        match parse_string_at(line, 15) {
            Some((key, n1)) => {
                let p = 15 + n1;
                proof {
                    assert(line@.skip(15int).skip(n1 as int) =~= line@.skip(p as int));
                }
                if has_value_sep_at(line, p) {
                    proof {
                        assert(line@.skip(p as int).skip(10) =~= line@.skip(p + 10));
                    }
                    match parse_string_at(line, p + 10) {
                        Some((value, n2)) => {
                            proof {
                                assert(line@.skip(p as int).skip(10 + n2 as int) =~= line@.skip(
                                    p + 10 + n2,
                                ));
                            }
                            if is_obj_end_at(line, p + 10 + n2) {
                                Some(CommandLog::SetCmd { key, value })
                            } else {
                                None
                            }
                        },
                        None => None,
                    }
                } else {
                    None
                }
            },
            None => None,
        }
    } else if is_remove_prefixed(line) {
        match parse_string_at(line, 18) {
            Some((key, n1)) => {
                let p = 18 + n1;
                proof {
                    assert(line@.skip(18int).skip(n1 as int) =~= line@.skip(p as int));
                }
                if is_obj_end_at(line, p) {
                    Some(CommandLog::RemoveCmd { key })
                } else {
                    None
                }
            },
            None => None,
        }
    } else {
        None
    }
}

} // verus!
