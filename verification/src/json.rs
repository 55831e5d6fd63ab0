//! The JSON text that the native adapter boundary answers with: quoted
//! strings and error responses.

use vstd::prelude::*;

use crate::text::{chars_of, push_char};
use vstd::string::StringExecFns;

verus! {

/// A control character (Unicode general category Cc): U+0000..U+001F and
/// U+007F..U+009F.
pub open spec fn is_control(c: char) -> bool {
    (c as u32) <= 0x1F || (0x7F <= (c as u32) && (c as u32) <= 0x9F)
}

/// The lower-case hexadecimal digit for `d` (below 16).
pub open spec fn hex_digit(d: u32) -> char {
    if d < 10 {
        (('0' as u32) + d) as char
    } else {
        (('a' as u32) + d - 10) as char
    }
}

/// How one character is written inside a JSON string.
pub open spec fn escape_char(c: char) -> Seq<char> {
    if c == '"' {
        seq!['\\', '"']
    } else if c == '\\' {
        seq!['\\', '\\']
    } else if c == '\n' {
        seq!['\\', 'n']
    } else if c == '\r' {
        seq!['\\', 'r']
    } else if c == '\t' {
        seq!['\\', 't']
    } else if is_control(c) {
        let v = c as u32;
        seq![
            '\\',
            'u',
            hex_digit((v / 4096) % 16),
            hex_digit((v / 256) % 16),
            hex_digit((v / 16) % 16),
            hex_digit(v % 16),
        ]
    } else {
        seq![c]
    }
}

/// The characters of `s`, each written as inside a JSON string.
pub open spec fn escaped(s: Seq<char>) -> Seq<char>
    decreases s.len(),
{
    if s.len() == 0 {
        Seq::empty()
    } else {
        escape_char(s[0]) + escaped(s.drop_first())
    }
}

/// `s` as a JSON string literal.
pub open spec fn json_quoted(s: Seq<char>) -> Seq<char> {
    seq!['"'] + escaped(s) + seq!['"']
}

/// The JSON answer that reports `error`.
pub open spec fn error_json(error: Seq<char>) -> Seq<char> {
    "{\"ok\":false,\"error\":"@ + json_quoted(error) + seq!['}']
}

fn hex_digit_exec(d: u32) -> (c: char)
    requires
        d < 16,
    ensures
        c == hex_digit(d),
{
    if d < 10 {
        ((d as u8) + 48u8) as char
    } else {
        ((d as u8) - 10 + 97u8) as char
    }
}

/// `escaped` of a split sequence is the two parts escaped one after the other.
proof fn lemma_escaped_push(s: Seq<char>, c: char)
    ensures
        escaped(s.push(c)) == escaped(s) + escape_char(c),
    decreases s.len(),
{
    if s.len() == 0 {
        assert(s.push(c).drop_first() =~= Seq::<char>::empty());
        assert(s.push(c)[0] == c);
        assert(escaped(Seq::<char>::empty()) == Seq::<char>::empty());
        assert(escape_char(c) + Seq::<char>::empty() =~= escape_char(c));
        assert(escaped(s) + escape_char(c) =~= escape_char(c));
    } else {
        lemma_escaped_push(s.drop_first(), c);
        assert(s.push(c).drop_first() =~= s.drop_first().push(c));
        assert(s.push(c)[0] == s[0]);
        assert(escaped(s.push(c)) == escape_char(s[0]) + escaped(s.drop_first().push(c)));
        assert(escape_char(s[0]) + (escaped(s.drop_first()) + escape_char(c)) =~= (escape_char(s[0])
            + escaped(s.drop_first())) + escape_char(c));
    }
}

/// Appends `value` to `output` as a JSON string literal.
pub fn write_json_string(output: &mut String, value: &str)
    ensures
        final(output)@ == old(output)@ + json_quoted(value@),
{
    let chars = chars_of(value);
    push_char(output, '"');
    let ghost start = old(output)@;
    for i in 0..chars.len()
        invariant
            chars@ == value@,
            output@ == start + seq!['"'] + escaped(value@.take(i as int)),
    {
        let c = chars[i];
        let ghost before = output@;
        if c == '"' {
            output.append("\\\"");
            proof { reveal_strlit("\\\""); }
        } else if c == '\\' {
            output.append("\\\\");
            proof { reveal_strlit("\\\\"); }
        } else if c == '\n' {
            output.append("\\n");
            proof { reveal_strlit("\\n"); }
        } else if c == '\r' {
            output.append("\\r");
            proof { reveal_strlit("\\r"); }
        } else if c == '\t' {
            output.append("\\t");
            proof { reveal_strlit("\\t"); }
        } else if (c as u32) <= 0x1F || (0x7F <= (c as u32) && (c as u32) <= 0x9F) {
            let v = c as u32;
            push_char(output, '\\');
            push_char(output, 'u');
            push_char(output, hex_digit_exec((v / 4096) % 16));
            push_char(output, hex_digit_exec((v / 256) % 16));
            push_char(output, hex_digit_exec((v / 16) % 16));
            push_char(output, hex_digit_exec(v % 16));
        } else {
            push_char(output, c);
        }
        proof {
            assert(output@ =~= before + escape_char(c));
            lemma_escaped_push(value@.take(i as int), c);
            assert(value@.take(i + 1) =~= value@.take(i as int).push(c));
        }
    }
    assert(value@.take(chars@.len() as int) =~= value@);
    push_char(output, '"');
    assert(output@ =~= start + json_quoted(value@));
}

/// The JSON answer that reports `error`.
pub fn error_response(error: &str) -> (s: String)
    ensures
        s@ == error_json(error@),
{
    let mut output = String::from_str("{\"ok\":false,\"error\":");
    write_json_string(&mut output, error);
    push_char(&mut output, '}');
    output
}


/// The value of a hexadecimal digit.
pub open spec fn hex_value(c: char) -> Option<int> {
    if '0' <= c && c <= '9' {
        Some((c as u32) - ('0' as u32))
    } else if 'a' <= c && c <= 'f' {
        Some((c as u32) - ('a' as u32) + 10)
    } else if 'A' <= c && c <= 'F' {
        Some((c as u32) - ('A' as u32) + 10)
    } else {
        None
    }
}

/// The character that a one-letter JSON escape stands for.
pub open spec fn short_escape(e: char) -> Option<char> {
    if e == '"' {
        Some('"')
    } else if e == '\\' {
        Some('\\')
    } else if e == '/' {
        Some('/')
    } else if e == 'b' {
        Some('\u{8}')
    } else if e == 'f' {
        Some('\u{c}')
    } else if e == 'n' {
        Some('\n')
    } else if e == 'r' {
        Some('\r')
    } else if e == 't' {
        Some('\t')
    } else {
        None
    }
}

/// The scalar value written by the four hexadecimal digits after `\u`.
pub open spec fn unicode_escape_value(t: Seq<char>) -> Option<int> {
    if t.len() >= 6 && hex_value(t[2]) is Some && hex_value(t[3]) is Some && hex_value(t[4]) is Some
        && hex_value(t[5]) is Some {
        Some(
            hex_value(t[2])->0 * 4096 + hex_value(t[3])->0 * 256 + hex_value(t[4])->0 * 16 + hex_value(
                t[5],
            )->0,
        )
    } else {
        None
    }
}

/// The text that the inside of a JSON string literal stands for, as RFC 8259
/// reads it (`\u` escapes of surrogates are not read): `None` when it holds
/// a bare quote, a raw control character below U+0020, or a malformed escape.
pub open spec fn unescape_json(t: Seq<char>) -> Option<Seq<char>>
    decreases t.len(),
{
    if t.len() == 0 {
        Some(Seq::empty())
    } else if t[0] == '\\' {
        if t.len() < 2 {
            None
        } else if short_escape(t[1]) is Some {
            match unescape_json(t.skip(2)) {
                Some(r) => Some(seq![short_escape(t[1])->0] + r),
                None => None,
            }
        } else if t[1] == 'u' && unicode_escape_value(t) is Some {
            let v = unicode_escape_value(t)->0;
            if v < 0xD800 || 0xDFFF < v {
                match unescape_json(t.skip(6)) {
                    Some(r) => Some(seq![v as char] + r),
                    None => None,
                }
            } else {
                None
            }
        } else {
            None
        }
    } else if t[0] == '"' || (t[0] as u32) < 0x20 {
        None
    } else {
        match unescape_json(t.skip(1)) {
            Some(r) => Some(seq![t[0]] + r),
            None => None,
        }
    }
}

proof fn lemma_hex_digit_value(d: u32)
    requires
        d < 16,
    ensures
        hex_value(hex_digit(d)) == Some(d as int),
{
}

/// Reading back one escaped character.
proof fn lemma_unescape_char(c: char, rest: Seq<char>)
    ensures
        unescape_json(escape_char(c) + rest) == match unescape_json(rest) {
            Some(r) => Some(seq![c] + r),
            None => None::<Seq<char>>,
        },
{
    let t = escape_char(c) + rest;
    if c == '"' || c == '\\' || c == '\n' || c == '\r' || c == '\t' {
        assert(t.skip(2) =~= rest);
    } else if is_control(c) {
        let v = c as u32;
        assert(v <= 0x9F);
        lemma_hex_digit_value((v / 4096) % 16);
        lemma_hex_digit_value((v / 256) % 16);
        lemma_hex_digit_value((v / 16) % 16);
        lemma_hex_digit_value(v % 16);
        assert(t[1] == 'u');
        assert(short_escape(t[1]) is None);
        assert((v / 4096) % 16 == 0);
        assert((v / 256) % 16 == 0);
        assert(((v / 16) % 16) * 16 + v % 16 == v);
        assert(unicode_escape_value(t) == Some(v as int));
        assert(v as char == c);
        assert(t.skip(6) =~= rest);
    } else {
        assert(t[0] == c);
        assert(t.skip(1) =~= rest);
    }
}

/// Reading the inside of a JSON string written by `write_json_string` gives
/// back exactly the original text.
pub proof fn law_json_string_round_trip(s: Seq<char>)
    ensures
        unescape_json(escaped(s)) == Some(s),
    decreases s.len(),
{
    if s.len() > 0 {
        law_json_string_round_trip(s.drop_first());
        lemma_unescape_char(s[0], escaped(s.drop_first()));
        assert(seq![s[0]] + s.drop_first() =~= s);
    }
}

} // verus!
