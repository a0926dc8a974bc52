//! The store's plaintext format: a flat JSON object from strings to strings,
//! written without any whitespace, as in `{"NAME":"VALUE","HOST":"local"}`.
//!
//! Inside a quoted string the characters `"` and `\` and every control
//! character below 0x20 are escaped: the short escapes `\b`, `\t`, `\n`,
//! `\f`, `\r` where JSON names one, `\u00XX` for the rest. The parser
//! accepts exactly the JSON escapes — `\"`, `\\`, `\/`, `\b`, `\f`, `\n`,
//! `\r`, `\t` and `\uXXXX` for scalars outside the surrogate range — and
//! rejects raw control characters, so decrypted text that is not a valid
//! flat JSON object of strings fails to load. Surrogate-pair escapes for
//! characters outside the basic plane are not accepted: the writer never
//! emits them, such characters stand as themselves in UTF-8. No whitespace
//! between tokens, no nested objects or arrays, no non-string scalars. A
//! later entry with a repeated key overwrites an earlier one.

use vstd::prelude::*;
use crate::text::push_char;

verus! {

/// The numeric value of a hex digit, or 16 for any other character.
pub open spec fn hex_val(c: char) -> int {
    let u = c as u32 as int;
    if 0x30 <= u <= 0x39 {
        u - 0x30
    } else if 0x61 <= u <= 0x66 {
        u - 0x61 + 10
    } else if 0x41 <= u <= 0x46 {
        u - 0x41 + 10
    } else {
        16
    }
}

/// The lowercase hex digit for a value below 16.
pub open spec fn hex_digit(v: int) -> char
    recommends
        0 <= v < 16,
{
    if v == 0 {
        '0'
    } else if v == 1 {
        '1'
    } else if v == 2 {
        '2'
    } else if v == 3 {
        '3'
    } else if v == 4 {
        '4'
    } else if v == 5 {
        '5'
    } else if v == 6 {
        '6'
    } else if v == 7 {
        '7'
    } else if v == 8 {
        '8'
    } else if v == 9 {
        '9'
    } else if v == 10 {
        'a'
    } else if v == 11 {
        'b'
    } else if v == 12 {
        'c'
    } else if v == 13 {
        'd'
    } else if v == 14 {
        'e'
    } else {
        'f'
    }
}

proof fn lemma_hex_val_digit(v: int)
    requires
        0 <= v < 16,
    ensures
        hex_val(hex_digit(v)) == v,
{
}

/// How one character appears inside a quoted string: a short escape where
/// JSON names one, `\u00XX` for the other control characters, the character
/// itself for everything else.
pub open spec fn escape_char(c: char) -> Seq<char> {
    if c == '"' {
        seq!['\\', '"']
    } else if c == '\\' {
        seq!['\\', '\\']
    } else if c == '\u{8}' {
        seq!['\\', 'b']
    } else if c == '\t' {
        seq!['\\', 't']
    } else if c == '\n' {
        seq!['\\', 'n']
    } else if c == '\u{c}' {
        seq!['\\', 'f']
    } else if c == '\r' {
        seq!['\\', 'r']
    } else if (c as u32) < 0x20 {
        seq!['\\', 'u', '0', '0', hex_digit(c as u32 as int / 16), hex_digit(c as u32 as int % 16)]
    } else {
        seq![c]
    }
}

/// How a whole string appears inside its quotes.
pub open spec fn escape_string(s: Seq<char>) -> Seq<char>
    decreases s.len(),
{
    if s.len() == 0 {
        Seq::empty()
    } else {
        escape_char(s[0]) + escape_string(s.drop_first())
    }
}

/// A string with its quotes and escapes.
pub open spec fn quoted(s: Seq<char>) -> Seq<char> {
    seq!['"'] + escape_string(s) + seq!['"']
}

/// One `"key":"value"` entry.
pub open spec fn entry_text(e: (Seq<char>, Seq<char>)) -> Seq<char> {
    quoted(e.0) + seq![':'] + quoted(e.1)
}

/// One or more entries joined by commas; empty input gives empty text.
pub open spec fn entries_text(es: Seq<(Seq<char>, Seq<char>)>) -> Seq<char>
    decreases es.len(),
{
    if es.len() == 0 {
        Seq::empty()
    } else if es.len() == 1 {
        entry_text(es[0])
    } else {
        entry_text(es[0]) + seq![','] + entries_text(es.drop_first())
    }
}

/// The serialized form of a sequence of entries.
pub open spec fn json_of(es: Seq<(Seq<char>, Seq<char>)>) -> Seq<char> {
    seq!['{'] + entries_text(es) + seq!['}']
}

/// The entry sequence a vector of string pairs stands for.
pub open spec fn entries_view(ps: Seq<(String, String)>) -> Seq<(Seq<char>, Seq<char>)> {
    ps.map_values(|p: (String, String)| (p.0@, p.1@))
}

proof fn lemma_escape_string_snoc(a: Seq<char>, c: char)
    ensures
        escape_string(a.push(c)) == escape_string(a) + escape_char(c),
    decreases a.len(),
{
    if a.len() == 0 {
        assert(a.push(c) =~= seq![c]);
        assert(seq![c].drop_first() =~= Seq::<char>::empty());
        assert(escape_string(seq![c]) == escape_char(c) + escape_string(Seq::<char>::empty()));
        assert(escape_char(c) + Seq::<char>::empty() =~= escape_char(c));
        assert(escape_string(a) + escape_char(c) =~= escape_char(c));
        assert(escape_string(a.push(c)) =~= escape_string(a) + escape_char(c));
    } else {
        assert(a.push(c).drop_first() =~= a.drop_first().push(c));
        lemma_escape_string_snoc(a.drop_first(), c);
        assert(escape_string(a.push(c)) =~= escape_string(a) + escape_char(c));
    }
}

proof fn lemma_entries_text_snoc(es: Seq<(Seq<char>, Seq<char>)>, e: (Seq<char>, Seq<char>))
    requires
        es.len() >= 1,
    ensures
        entries_text(es.push(e)) == entries_text(es) + seq![','] + entry_text(e),
    decreases es.len(),
{
    if es.len() == 1 {
        assert(es.push(e).drop_first() =~= seq![e]);
        assert(entries_text(seq![e]) == entry_text(e));
        assert(entries_text(es.push(e)) =~= entries_text(es) + seq![','] + entry_text(e));
    } else {
        assert(es.push(e).drop_first() =~= es.drop_first().push(e));
        lemma_entries_text_snoc(es.drop_first(), e);
        assert(entries_text(es.push(e)) =~= entries_text(es) + seq![','] + entry_text(e));
    }
}

/// The lowercase hex digit for a value below 16.
fn hex_digit_char(v: u32) -> (r: char)
    requires
        v < 16,
    ensures
        r == hex_digit(v as int),
{
    match v {
        0 => '0',
        1 => '1',
        2 => '2',
        3 => '3',
        4 => '4',
        5 => '5',
        6 => '6',
        7 => '7',
        8 => '8',
        9 => '9',
        10 => 'a',
        11 => 'b',
        12 => 'c',
        13 => 'd',
        14 => 'e',
        _ => 'f',
    }
}

/// The numeric value of a hex digit, or 16 for any other character.
fn hex_digit_val(c: char) -> (r: u32)
    ensures
        r as int == hex_val(c),
{
    let u = c as u32;
    if 0x30 <= u && u <= 0x39 {
        u - 0x30
    } else if 0x61 <= u && u <= 0x66 {
        u - 0x61 + 10
    } else if 0x41 <= u && u <= 0x46 {
        u - 0x41 + 10
    } else {
        16
    }
}

/// Append a string in its quoted, escaped form.
fn write_quoted(out: &mut String, s: &String)
    ensures
        final(out)@ == old(out)@ + quoted(s@),
{
    push_char(out, '"');
    let cs = crate::text::str_chars(s.as_str());
    let mut i: usize = 0;
    while i < cs.len()
        invariant
            i <= cs@.len(),
            cs@ == s@,
            out@ == old(out)@ + seq!['"'] + escape_string(s@.take(i as int)),
        decreases cs@.len() - i,
    {
        let c = cs[i];
        if c == '"' {
            push_char(out, '\\');
            push_char(out, '"');
        } else if c == '\\' {
            push_char(out, '\\');
            push_char(out, '\\');
        } else if c == '\u{8}' {
            push_char(out, '\\');
            push_char(out, 'b');
        } else if c == '\t' {
            push_char(out, '\\');
            push_char(out, 't');
        } else if c == '\n' {
            push_char(out, '\\');
            push_char(out, 'n');
        } else if c == '\u{c}' {
            push_char(out, '\\');
            push_char(out, 'f');
        } else if c == '\r' {
            push_char(out, '\\');
            push_char(out, 'r');
        } else if (c as u32) < 0x20 {
            push_char(out, '\\');
            push_char(out, 'u');
            push_char(out, '0');
            push_char(out, '0');
            let u = c as u32;
            push_char(out, hex_digit_char(u / 16));
            push_char(out, hex_digit_char(u % 16));
        } else {
            push_char(out, c);
        }
        proof {
            lemma_escape_string_snoc(s@.take(i as int), s@[i as int]);
            assert(s@.take(i as int).push(s@[i as int]) =~= s@.take(i + 1 as int));
            assert(out@ =~= old(out)@ + seq!['"'] + escape_string(s@.take(i + 1 as int)));
        }
        i = i + 1;
    }
    push_char(out, '"');
    proof {
        assert(s@.take(s@.len() as int) =~= s@);
        assert(out@ =~= old(out)@ + quoted(s@));
    }
}

/// Serialize a sequence of string pairs to the store's text form.
pub(crate) fn write_json(pairs: &Vec<(String, String)>) -> (r: String)
    ensures
        r@ == json_of(entries_view(pairs@)),
{
    let mut out = String::new();
    push_char(&mut out, '{');
    proof {
        assert(out@ =~= seq!['{'] + entries_text(entries_view(pairs@).take(0)));
    }
    let mut i: usize = 0;
    while i < pairs.len()
        invariant
            i <= pairs@.len(),
            out@ == seq!['{'] + entries_text(entries_view(pairs@).take(i as int)),
        decreases pairs@.len() - i,
    {
        if i > 0 {
            push_char(&mut out, ',');
        }
        let p = &pairs[i];
        write_quoted(&mut out, &p.0);
        push_char(&mut out, ':');
        write_quoted(&mut out, &p.1);
        proof {
            let ghost ev = entries_view(pairs@);
            assert(ev.take(i as int).push(ev[i as int]) =~= ev.take(i + 1 as int));
            if i > 0 {
                lemma_entries_text_snoc(ev.take(i as int), ev[i as int]);
            } else {
                assert(ev.take(1) =~= seq![ev[0]]);
            }
            assert(out@ =~= seq!['{'] + entries_text(ev.take(i + 1 as int)));
        }
        i = i + 1;
    }
    push_char(&mut out, '}');
    proof {
        assert(entries_view(pairs@).take(pairs@.len() as int) =~= entries_view(pairs@));
        assert(out@ =~= json_of(entries_view(pairs@)));
    }
    out
}

/// The character a one-letter escape code stands for, if the code is a
/// legal one; `u` escapes are handled apart.
pub open spec fn unescape(c: char) -> Option<char> {
    if c == '"' {
        Some('"')
    } else if c == '\\' {
        Some('\\')
    } else if c == '/' {
        Some('/')
    } else if c == 'b' {
        Some('\u{8}')
    } else if c == 'f' {
        Some('\u{c}')
    } else if c == 'n' {
        Some('\n')
    } else if c == 'r' {
        Some('\r')
    } else if c == 't' {
        Some('\t')
    } else {
        None
    }
}

/// Parse a string body that starts right after its opening quote; on success
/// the result holds the unescaped content and what follows the closing quote.
pub open spec fn parse_string_body(s: Seq<char>) -> Option<(Seq<char>, Seq<char>)>
    decreases s.len(),
{
    if s.len() == 0 {
        None
    } else if s[0] == '"' {
        Some((Seq::empty(), s.drop_first()))
    } else if s[0] == '\\' {
        if s.len() < 2 {
            None
        } else if s[1] == 'u' {
            if s.len() < 6 {
                None
            } else {
                let v = hex_val(s[2]) * 4096 + hex_val(s[3]) * 256 + hex_val(s[4]) * 16 + hex_val(
                    s[5],
                );
                if hex_val(s[2]) == 16 || hex_val(s[3]) == 16 || hex_val(s[4]) == 16 || hex_val(
                    s[5],
                ) == 16 || (0xd800 <= v < 0xe000) {
                    None
                } else {
                    match parse_string_body(s.skip(6)) {
                        Some(p) => Some((seq![(v as u32) as char] + p.0, p.1)),
                        None => None,
                    }
                }
            }
        } else {
            match unescape(s[1]) {
                Some(c) => match parse_string_body(s.skip(2)) {
                    Some(p) => Some((seq![c] + p.0, p.1)),
                    None => None,
                },
                None => None,
            }
        }
    } else if (s[0] as u32) < 0x20 {
        None
    } else {
        match parse_string_body(s.drop_first()) {
            Some(p) => Some((seq![s[0]] + p.0, p.1)),
            None => None,
        }
    }
}

/// A successful string parse consumes at least the closing quote.
pub proof fn lemma_parse_string_rest(s: Seq<char>)
    ensures
        parse_string_body(s) matches Some(p) ==> p.1.len() < s.len(),
    decreases s.len(),
{
    if s.len() == 0 {
    } else if s[0] == '"' {
    } else if s[0] == '\\' {
        if s.len() >= 6 && s[1] == 'u' {
            lemma_parse_string_rest(s.skip(6));
        } else if s.len() >= 2 && s[1] != 'u' && unescape(s[1]) is Some {
            lemma_parse_string_rest(s.skip(2));
        }
    } else if (s[0] as u32) < 0x20 {
    } else {
        lemma_parse_string_rest(s.drop_first());
    }
}

/// Parse one or more `"key":"value"` entries, comma-separated and closed by
/// `}`; on success the result holds the entries and what follows the `}`.
pub open spec fn parse_entries(s: Seq<char>) -> Option<(Seq<(Seq<char>, Seq<char>)>, Seq<char>)>
    decreases s.len(),
    via parse_entries_dec
{
    if s.len() == 0 || s[0] != '"' {
        None
    } else {
        match parse_string_body(s.drop_first()) {
            None => None,
            Some(kp) => {
                let r1 = kp.1;
                if r1.len() < 2 || r1[0] != ':' || r1[1] != '"' {
                    None
                } else {
                    match parse_string_body(r1.skip(2)) {
                        None => None,
                        Some(vp) => {
                            let r2 = vp.1;
                            if r2.len() == 0 {
                                None
                            } else if r2[0] == '}' {
                                Some((seq![(kp.0, vp.0)], r2.drop_first()))
                            } else if r2[0] == ',' {
                                match parse_entries(r2.drop_first()) {
                                    None => None,
                                    Some(ep) => Some((seq![(kp.0, vp.0)] + ep.0, ep.1)),
                                }
                            } else {
                                None
                            }
                        },
                    }
                }
            },
        }
    }
}

#[via_fn]
proof fn parse_entries_dec(s: Seq<char>) {
    if s.len() > 0 && s[0] == '"' {
        lemma_parse_string_rest(s.drop_first());
        if let Some(kp) = parse_string_body(s.drop_first()) {
            let r1 = kp.1;
            if r1.len() >= 2 && r1[0] == ':' && r1[1] == '"' {
                lemma_parse_string_rest(r1.skip(2));
            }
        }
    }
}

/// Parse a whole serialized map: `{}` or `{` entries `}` with nothing after.
pub open spec fn parse_json_text(s: Seq<char>) -> Option<Seq<(Seq<char>, Seq<char>)>> {
    if s.len() == 2 && s[0] == '{' && s[1] == '}' {
        Some(Seq::empty())
    } else if s.len() >= 2 && s[0] == '{' {
        match parse_entries(s.drop_first()) {
            Some(p) => if p.1.len() == 0 {
                Some(p.0)
            } else {
                None
            },
            None => None,
        }
    } else {
        None
    }
}

/// Parsing inverts escaping: a string body made of an escaped string, its
/// closing quote and a tail parses to that string and that tail.
pub proof fn lemma_parse_quoted(x: Seq<char>, rest: Seq<char>)
    ensures
        parse_string_body(escape_string(x) + seq!['"'] + rest) == Some((x, rest)),
    decreases x.len(),
{
    let s = escape_string(x) + seq!['"'] + rest;
    if x.len() == 0 {
        assert(s =~= seq!['"'] + rest);
        assert(s[0] == '"');
        assert(s.drop_first() =~= rest);
        assert(x =~= Seq::<char>::empty());
    } else {
        let x0 = x[0];
        let xt = x.drop_first();
        lemma_parse_quoted(xt, rest);
        let st = escape_string(xt) + seq!['"'] + rest;
        assert(escape_string(x) == escape_char(x0) + escape_string(xt));
        let u = x0 as u32 as int;
        if x0 == '"' || x0 == '\\' || x0 == '\u{8}' || x0 == '\t' || x0 == '\n' || x0 == '\u{c}'
            || x0 == '\r' {
            assert(escape_char(x0).len() == 2);
            assert(s[0] == escape_char(x0)[0]);
            assert(s[1] == escape_char(x0)[1]);
            assert(s[0] == '\\');
            assert(s[1] != 'u');
            assert(unescape(s[1]) == Some(x0));
            assert(s.skip(2) =~= st);
            assert(seq![x0] + xt =~= x);
        } else if (x0 as u32) < 0x20 {
            assert(escape_char(x0).len() == 6);
            assert(s[0] == escape_char(x0)[0]);
            assert(s[1] == escape_char(x0)[1]);
            assert(s[2] == escape_char(x0)[2]);
            assert(s[3] == escape_char(x0)[3]);
            assert(s[4] == escape_char(x0)[4]);
            assert(s[5] == escape_char(x0)[5]);
            assert(s[0] == '\\' && s[1] == 'u' && s[2] == '0' && s[3] == '0');
            assert(s[4] == hex_digit(u / 16));
            assert(s[5] == hex_digit(u % 16));
            lemma_hex_val_digit(u / 16);
            lemma_hex_val_digit(u % 16);
            assert(hex_val(s[2]) == 0 && hex_val(s[3]) == 0);
            let v = hex_val(s[2]) * 4096 + hex_val(s[3]) * 256 + hex_val(s[4]) * 16 + hex_val(
                s[5],
            );
            assert(v == u);
            vstd::utf8::char_u32_cast(x0, x0 as u32);
            assert((v as u32) as char == x0);
            assert(s.skip(6) =~= st);
            assert(seq![x0] + xt =~= x);
        } else {
            assert(escape_char(x0) =~= seq![x0]);
            assert(s[0] == x0);
            assert(!((s[0] as u32) < 0x20));
            assert(s.drop_first() =~= st);
            assert(seq![x0] + xt =~= x);
        }
    }
}

/// Parsing inverts serialization of one or more entries followed by `}`.
#[verifier::rlimit(50)]
pub proof fn lemma_parse_entries_text(es: Seq<(Seq<char>, Seq<char>)>, rest: Seq<char>)
    requires
        es.len() >= 1,
    ensures
        parse_entries(entries_text(es) + seq!['}'] + rest) == Some((es, rest)),
    decreases es.len(),
{
    let s = entries_text(es) + seq!['}'] + rest;
    let k = es[0].0;
    let v = es[0].1;
    if es.len() == 1 {
        let tail1 = seq![':'] + quoted(v) + seq!['}'] + rest;
        assert(s =~= seq!['"'] + (escape_string(k) + seq!['"'] + tail1));
        assert(s[0] == '"');
        assert(s.drop_first() =~= escape_string(k) + seq!['"'] + tail1);
        lemma_parse_quoted(k, tail1);
        assert(tail1[0] == ':');
        assert(tail1[1] == (seq![':'] + quoted(v))[1]);
        assert(tail1[1] == '"');
        let tail2 = seq!['}'] + rest;
        assert(tail1.skip(2) =~= escape_string(v) + seq!['"'] + tail2);
        lemma_parse_quoted(v, tail2);
        assert(tail2[0] == '}');
        assert(tail2.drop_first() =~= rest);
        assert(seq![(k, v)] =~= es);
    } else {
        let est = es.drop_first();
        let tail1 = seq![':'] + quoted(v) + seq![','] + entries_text(est) + seq!['}'] + rest;
        assert(entries_text(es) == entry_text(es[0]) + seq![','] + entries_text(est));
        assert(s =~= seq!['"'] + (escape_string(k) + seq!['"'] + tail1));
        assert(s[0] == '"');
        assert(s.drop_first() =~= escape_string(k) + seq!['"'] + tail1);
        lemma_parse_quoted(k, tail1);
        assert(tail1[0] == ':');
        assert(tail1[1] == (seq![':'] + quoted(v))[1]);
        assert(tail1[1] == '"');
        let tail2 = seq![','] + entries_text(est) + seq!['}'] + rest;
        assert(tail1.skip(2) =~= escape_string(v) + seq!['"'] + tail2);
        lemma_parse_quoted(v, tail2);
        assert(tail2[0] == ',');
        assert(tail2.drop_first() =~= entries_text(est) + seq!['}'] + rest);
        lemma_parse_entries_text(est, rest);
        assert(seq![(k, v)] + est =~= es);
    }
}

/// Parsing inverts serialization: the law behind the store's round trip.
pub proof fn lemma_parse_json_of(es: Seq<(Seq<char>, Seq<char>)>)
    ensures
        parse_json_text(json_of(es)) == Some(es),
{
    let s = json_of(es);
    if es.len() == 0 {
        assert(s =~= seq!['{', '}']);
        assert(es =~= Seq::<(Seq<char>, Seq<char>)>::empty());
    } else {
        assert(quoted(es[0].0).len() >= 2);
        assert(entry_text(es[0]).len() >= 5);
        assert(entries_text(es).len() >= 5);
        assert(s.len() >= 7);
        assert(s[0] == '{');
        lemma_parse_entries_text(es, Seq::empty());
        assert(s.drop_first() =~= entries_text(es) + seq!['}'] + Seq::<char>::empty());
    }
}

/// A parse outcome with a sequence put on the front of the parsed content.
pub open spec fn opt_prepend(p: Seq<char>, o: Option<(Seq<char>, Seq<char>)>) -> Option<
    (Seq<char>, Seq<char>),
> {
    match o {
        Some(q) => Some((p + q.0, q.1)),
        None => None,
    }
}

proof fn lemma_opt_prepend_empty(o: Option<(Seq<char>, Seq<char>)>)
    ensures
        opt_prepend(Seq::empty(), o) == o,
{
    match o {
        Some(q) => {
            assert(Seq::<char>::empty() + q.0 =~= q.0);
        },
        None => {},
    }
}

proof fn lemma_opt_prepend_assoc(a: Seq<char>, c: char, o: Option<(Seq<char>, Seq<char>)>)
    ensures
        opt_prepend(a, opt_prepend(seq![c], o)) == opt_prepend(a.push(c), o),
{
    match o {
        Some(q) => {
            assert(a + (seq![c] + q.0) =~= a.push(c) + q.0);
        },
        None => {},
    }
}

/// Parse a string body at `start`, right after an opening quote; on success
/// the result holds the content and the position after the closing quote.
pub(crate) fn parse_string_at(v: &Vec<char>, start: usize) -> (r: Option<(String, usize)>)
    requires
        start <= v@.len(),
    ensures
        r matches Some(p) ==> start <= p.1 <= v@.len() && parse_string_body(v@.skip(start as int))
            == Some((p.0@, v@.skip(p.1 as int))),
        r is None ==> parse_string_body(v@.skip(start as int)) is None,
{
    let mut acc = String::new();
    let mut i: usize = start;
    proof {
        lemma_opt_prepend_empty(parse_string_body(v@.skip(start as int)));
    }
    loop
        invariant
            start <= i <= v@.len(),
            parse_string_body(v@.skip(start as int)) == opt_prepend(
                acc@,
                parse_string_body(v@.skip(i as int)),
            ),
        decreases v@.len() - i,
    {
        if i == v.len() {
            proof {
                assert(v@.skip(i as int) =~= Seq::<char>::empty());
            }
            return None;
        }
        let c = v[i];
        proof {
            assert(v@.skip(i as int)[0] == v@[i as int]);
        }
        if c == '"' {
            proof {
                assert(v@.skip(i as int).drop_first() =~= v@.skip(i + 1 as int));
                assert(acc@ + Seq::<char>::empty() =~= acc@);
            }
            return Some((acc, i + 1));
        }
        if c == '\\' {
            if i + 1 == v.len() {
                proof {
                    assert(v@.skip(i as int).len() == 1);
                }
                return None;
            }
            let e = v[i + 1];
            proof {
                assert(v@.skip(i as int)[1] == v@[i + 1 as int]);
            }
            if e == 'u' {
                if v.len() - i < 6 {
                    proof {
                        assert(v@.skip(i as int).len() < 6);
                    }
                    return None;
                }
                proof {
                    assert(v@.skip(i as int)[2] == v@[i + 2 as int]);
                    assert(v@.skip(i as int)[3] == v@[i + 3 as int]);
                    assert(v@.skip(i as int)[4] == v@[i + 4 as int]);
                    assert(v@.skip(i as int)[5] == v@[i + 5 as int]);
                }
                let d1 = hex_digit_val(v[i + 2]);
                let d2 = hex_digit_val(v[i + 3]);
                let d3 = hex_digit_val(v[i + 4]);
                let d4 = hex_digit_val(v[i + 5]);
                if d1 == 16 || d2 == 16 || d3 == 16 || d4 == 16 {
                    return None;
                }
                let val: u32 = d1 * 4096 + d2 * 256 + d3 * 16 + d4;
                if 0xd800 <= val && val < 0xe000 {
                    return None;
                }
                let u = match crate::text::char_from_u32(val) {
                    Some(ch) => ch,
                    None => {
                        proof {
                            assert(false);
                        }
                        return None;
                    },
                };
                proof {
                    vstd::utf8::char_u32_cast(u, val);
                    assert(v@.skip(i as int).skip(6) =~= v@.skip(i + 6 as int));
                    lemma_opt_prepend_assoc(acc@, u, parse_string_body(v@.skip(i + 6 as int)));
                }
                push_char(&mut acc, u);
                i = i + 6;
                continue ;
            }
            let u: char;
            if e == '"' {
                u = '"';
            } else if e == '\\' {
                u = '\\';
            } else if e == '/' {
                u = '/';
            } else if e == 'b' {
                u = '\u{8}';
            } else if e == 'f' {
                u = '\u{c}';
            } else if e == 'n' {
                u = '\n';
            } else if e == 'r' {
                u = '\r';
            } else if e == 't' {
                u = '\t';
            } else {
                return None;
            }
            proof {
                assert(v@.skip(i as int).skip(2) =~= v@.skip(i + 2 as int));
                lemma_opt_prepend_assoc(acc@, u, parse_string_body(v@.skip(i + 2 as int)));
            }
            push_char(&mut acc, u);
            i = i + 2;
        } else if (c as u32) < 0x20 {
            return None;
        } else {
            proof {
                assert(v@.skip(i as int).drop_first() =~= v@.skip(i + 1 as int));
                lemma_opt_prepend_assoc(acc@, c, parse_string_body(v@.skip(i + 1 as int)));
            }
            push_char(&mut acc, c);
            i = i + 1;
        }
    }
}

/// A parse outcome with entries put on the front of the parsed entries.
pub open spec fn opt_prepend_entries(
    p: Seq<(Seq<char>, Seq<char>)>,
    o: Option<(Seq<(Seq<char>, Seq<char>)>, Seq<char>)>,
) -> Option<(Seq<(Seq<char>, Seq<char>)>, Seq<char>)> {
    match o {
        Some(q) => Some((p + q.0, q.1)),
        None => None,
    }
}

proof fn lemma_opt_prepend_entries_empty(o: Option<(Seq<(Seq<char>, Seq<char>)>, Seq<char>)>)
    ensures
        opt_prepend_entries(Seq::empty(), o) == o,
{
    match o {
        Some(q) => {
            assert(Seq::<(Seq<char>, Seq<char>)>::empty() + q.0 =~= q.0);
        },
        None => {},
    }
}

proof fn lemma_opt_prepend_entries_assoc(
    a: Seq<(Seq<char>, Seq<char>)>,
    e: (Seq<char>, Seq<char>),
    o: Option<(Seq<(Seq<char>, Seq<char>)>, Seq<char>)>,
)
    ensures
        opt_prepend_entries(a, opt_prepend_entries(seq![e], o)) == opt_prepend_entries(
            a.push(e),
            o,
        ),
{
    match o {
        Some(q) => {
            assert(a + (seq![e] + q.0) =~= a.push(e) + q.0);
        },
        None => {},
    }
}

/// Parse comma-separated entries closed by `}`, starting at `start`.
pub(crate) fn parse_entries_at(v: &Vec<char>, start: usize) -> (r: Option<
    (Vec<(String, String)>, usize),
>)
    requires
        start <= v@.len(),
    ensures
        r matches Some(p) ==> p.1 <= v@.len() && parse_entries(v@.skip(start as int)) == Some(
            (entries_view(p.0@), v@.skip(p.1 as int)),
        ),
        r is None ==> parse_entries(v@.skip(start as int)) is None,
{
    let mut acc: Vec<(String, String)> = Vec::new();
    let mut i: usize = start;
    proof {
        assert(entries_view(acc@) =~= Seq::<(Seq<char>, Seq<char>)>::empty());
        lemma_opt_prepend_entries_empty(parse_entries(v@.skip(start as int)));
    }
    loop
        invariant
            start <= i <= v@.len(),
            parse_entries(v@.skip(start as int)) == opt_prepend_entries(
                entries_view(acc@),
                parse_entries(v@.skip(i as int)),
            ),
        decreases v@.len() - i,
    {
        if i == v.len() {
            proof {
                assert(v@.skip(i as int) =~= Seq::<char>::empty());
            }
            return None;
        }
        proof {
            assert(v@.skip(i as int)[0] == v@[i as int]);
        }
        if v[i] != '"' {
            return None;
        }
        proof {
            assert(v@.skip(i as int).drop_first() =~= v@.skip(i + 1 as int));
        }
        let kr = parse_string_at(v, i + 1);
        if kr.is_none() {
            return None;
        }
        let (k, j1) = kr.unwrap();
        // what follows the key must be a colon and an opening quote
        if v.len() - j1 < 2 {
            proof {
                assert(v@.skip(j1 as int).len() < 2);
            }
            return None;
        }
        proof {
            assert(v@.skip(j1 as int)[0] == v@[j1 as int]);
            assert(v@.skip(j1 as int)[1] == v@[j1 + 1 as int]);
        }
        if v[j1] != ':' || v[j1 + 1] != '"' {
            return None;
        }
        proof {
            assert(v@.skip(j1 as int).skip(2) =~= v@.skip(j1 + 2 as int));
        }
        let vr = parse_string_at(v, j1 + 2);
        if vr.is_none() {
            return None;
        }
        let (val, j2) = vr.unwrap();
        if j2 == v.len() {
            proof {
                assert(v@.skip(j2 as int).len() == 0);
            }
            return None;
        }
        proof {
            assert(v@.skip(j2 as int)[0] == v@[j2 as int]);
            assert(v@.skip(j2 as int).drop_first() =~= v@.skip(j2 + 1 as int));
        }
        let t = v[j2];
        if t == '}' {
            let ghost old_entries = entries_view(acc@);
            let ghost knv = (k@, val@);
            proof {
                assert(parse_entries(v@.skip(i as int)) == Some(
                    (seq![knv], v@.skip(j2 + 1 as int)),
                ));
            }
            acc.push((k, val));
            proof {
                assert(entries_view(acc@) =~= old_entries.push(knv));
                assert(old_entries + seq![knv] =~= old_entries.push(knv));
            }
            return Some((acc, j2 + 1));
        } else if t == ',' {
            let ghost old_entries = entries_view(acc@);
            let ghost knv = (k@, val@);
            proof {
                assert(parse_entries(v@.skip(i as int)) == opt_prepend_entries(
                    seq![knv],
                    parse_entries(v@.skip(j2 + 1 as int)),
                ));
                lemma_opt_prepend_entries_assoc(
                    old_entries,
                    knv,
                    parse_entries(v@.skip(j2 + 1 as int)),
                );
            }
            acc.push((k, val));
            proof {
                assert(entries_view(acc@) =~= old_entries.push(knv));
            }
            i = j2 + 1;
        } else {
            return None;
        }
    }
}

/// Parse a whole serialized map from its characters.
pub(crate) fn parse_json_chars(v: &Vec<char>) -> (r: Option<Vec<(String, String)>>)
    ensures
        r matches Some(ps) ==> parse_json_text(v@) == Some(entries_view(ps@)),
        r is None ==> parse_json_text(v@) is None,
{
    if v.len() < 2 {
        return None;
    }
    if v[0] != '{' {
        return None;
    }
    if v.len() == 2 && v[1] == '}' {
        let empty: Vec<(String, String)> = Vec::new();
        proof {
            assert(entries_view(empty@) =~= Seq::<(Seq<char>, Seq<char>)>::empty());
        }
        return Some(empty);
    }
    proof {
        assert(v@.drop_first() =~= v@.skip(1));
    }
    match parse_entries_at(v, 1) {
        None => None,
        Some((ps, j)) => {
            if j == v.len() {
                proof {
                    assert(v@.skip(j as int).len() == 0);
                }
                Some(ps)
            } else {
                proof {
                    assert(v@.skip(j as int).len() != 0);
                }
                None
            }
        },
    }
}

} // verus!
