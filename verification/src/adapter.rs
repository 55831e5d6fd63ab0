//! The boundary to native platform adapters: input events decoded from
//! integer codes, and the actions to take answered as compact JSON.

use vstd::prelude::*;

use crate::json::{
    error_json, escape_char, escaped, is_control, json_quoted, law_json_string_round_trip, unescape_json,
    write_json_string,
};
use crate::text::{char_from_scalar, push_char};
use vstd::string::StringExecFns;

verus! {

pub const EVENT_CHARACTER: u32 = 0;

pub const EVENT_SPACE: u32 = 1;

pub const EVENT_ENTER: u32 = 2;

pub const EVENT_ESCAPE: u32 = 3;

pub const EVENT_BACKSPACE: u32 = 4;

pub const EVENT_NEXT_CANDIDATE: u32 = 5;

pub const EVENT_PREVIOUS_CANDIDATE: u32 = 6;

/// A key event from the platform.
#[derive(Clone, Copy, Debug, PartialEq, Eq)]
pub enum InputEvent {
    Character(char),
    Space,
    Enter,
    Escape,
    Backspace,
    NextCandidate,
    PreviousCandidate,
}

/// What the platform adapter is asked to do.
#[derive(Clone, Debug, PartialEq, Eq)]
pub enum ImeAction {
    UpdatePreedit(String),
    ShowCandidates { candidates: Vec<String>, selected: usize },
    HideCandidates,
    Commit(String),
    Clear,
    ForwardKey,
}

/// The event that an event code and scalar stand for; the scalar is read
/// only for `EVENT_CHARACTER`.
pub open spec fn event_of(event_kind: u32, scalar: u32) -> Result<InputEvent, Seq<char>> {
    if event_kind == EVENT_CHARACTER {
        if scalar < 0xD800 || (0xDFFF < scalar && scalar <= 0x10FFFF) {
            Ok(InputEvent::Character(scalar as char))
        } else {
            Err("invalid_unicode_scalar"@)
        }
    } else if event_kind == EVENT_SPACE {
        Ok(InputEvent::Space)
    } else if event_kind == EVENT_ENTER {
        Ok(InputEvent::Enter)
    } else if event_kind == EVENT_ESCAPE {
        Ok(InputEvent::Escape)
    } else if event_kind == EVENT_BACKSPACE {
        Ok(InputEvent::Backspace)
    } else if event_kind == EVENT_NEXT_CANDIDATE {
        Ok(InputEvent::NextCandidate)
    } else if event_kind == EVENT_PREVIOUS_CANDIDATE {
        Ok(InputEvent::PreviousCandidate)
    } else {
        Err("invalid_event_kind"@)
    }
}

/// Decodes an event code and scalar into an input event.
pub fn decode_event(event_kind: u32, scalar: u32) -> (r: Result<InputEvent, &'static str>)
    ensures
        match r {
            Ok(e) => event_of(event_kind, scalar) == Ok::<InputEvent, Seq<char>>(e),
            Err(m) => event_of(event_kind, scalar) == Err::<InputEvent, Seq<char>>(m@),
        },
{
    if event_kind == EVENT_CHARACTER {
        match char_from_scalar(scalar) {
            Some(c) => Ok(InputEvent::Character(c)),
            None => Err("invalid_unicode_scalar"),
        }
    } else if event_kind == EVENT_SPACE {
        Ok(InputEvent::Space)
    } else if event_kind == EVENT_ENTER {
        Ok(InputEvent::Enter)
    } else if event_kind == EVENT_ESCAPE {
        Ok(InputEvent::Escape)
    } else if event_kind == EVENT_BACKSPACE {
        Ok(InputEvent::Backspace)
    } else if event_kind == EVENT_NEXT_CANDIDATE {
        Ok(InputEvent::NextCandidate)
    } else if event_kind == EVENT_PREVIOUS_CANDIDATE {
        Ok(InputEvent::PreviousCandidate)
    } else {
        Err("invalid_event_kind")
    }
}

/// The decimal digits of `n`, most significant first, without leading zeros.
pub open spec fn decimal_text(n: nat) -> Seq<char>
    decreases n,
{
    if n < 10 {
        seq![(('0' as u32) + n) as char]
    } else {
        decimal_text(n / 10) + seq![(('0' as u32) + n % 10) as char]
    }
}

/// Appends the decimal digits of `n` to `output`.
fn write_decimal(output: &mut String, n: usize)
    ensures
        final(output)@ == old(output)@ + decimal_text(n as nat),
    decreases n,
{
    if n >= 10 {
        write_decimal(output, n / 10);
    }
    let d = (n % 10) as u8;
    push_char(output, (d + 48u8) as char);
    assert(((('0' as u32) + (n % 10) as nat) as char) == ((d + 48u8) as char));
}

/// The items written one after the other with commas in between.
pub open spec fn comma_joined(items: Seq<Seq<char>>) -> Seq<char>
    decreases items.len(),
{
    if items.len() == 0 {
        Seq::empty()
    } else if items.len() == 1 {
        items[0]
    } else {
        comma_joined(items.drop_last()) + seq![','] + items.last()
    }
}

pub open spec fn strings_quoted(v: Seq<String>) -> Seq<Seq<char>> {
    v.map_values(|s: String| json_quoted(s@))
}

/// The JSON object for one action.
pub open spec fn action_json(action: ImeAction) -> Seq<char> {
    match action {
        ImeAction::UpdatePreedit(text) => "{\"type\":\"update_preedit\",\"text\":"@ + json_quoted(text@)
            + seq!['}'],
        ImeAction::ShowCandidates { candidates, selected } => "{\"type\":\"show_candidates\",\"selected\":"@
            + decimal_text(selected as nat) + ",\"candidates\":["@ + comma_joined(
            strings_quoted(candidates@),
        ) + "]}"@,
        ImeAction::HideCandidates => "{\"type\":\"hide_candidates\"}"@,
        ImeAction::Commit(text) => "{\"type\":\"commit\",\"text\":"@ + json_quoted(text@) + seq!['}'],
        ImeAction::Clear => "{\"type\":\"clear\"}"@,
        ImeAction::ForwardKey => "{\"type\":\"forward_key\"}"@,
    }
}

/// The JSON answer that lists `actions`.
pub open spec fn success_json(actions: Seq<ImeAction>) -> Seq<char> {
    "{\"ok\":true,\"actions\":["@ + comma_joined(actions.map_values(|a: ImeAction| action_json(a))) + "]}"@
}

proof fn lemma_comma_joined_push(items: Seq<Seq<char>>, x: Seq<char>)
    ensures
        comma_joined(items.push(x)) == if items.len() == 0 {
            x
        } else {
            comma_joined(items) + seq![','] + x
        },
{
    assert(items.push(x).drop_last() =~= items);
}

/// Appends the JSON object for `action` to `output`.
pub fn write_action(output: &mut String, action: &ImeAction)
    ensures
        final(output)@ == old(output)@ + action_json(*action),
{
    match action {
        ImeAction::UpdatePreedit(text) => {
            output.append("{\"type\":\"update_preedit\",\"text\":");
            write_json_string(output, text.as_str());
            push_char(output, '}');
        },
        ImeAction::ShowCandidates { candidates, selected } => {
            output.append("{\"type\":\"show_candidates\",\"selected\":");
            write_decimal(output, *selected);
            output.append(",\"candidates\":[");
            let ghost base = output@;
            for index in 0..candidates.len()
                invariant
                    output@ == base + comma_joined(strings_quoted(candidates@).take(index as int)),
            {
                let ghost before = output@;
                if index > 0 {
                    push_char(output, ',');
                }
                write_json_string(output, candidates[index].as_str());
                proof {
                    let q = strings_quoted(candidates@);
                    assert(q.take(index + 1) =~= q.take(index as int).push(q[index as int]));
                    lemma_comma_joined_push(q.take(index as int), q[index as int]);
                }
            }
            proof {
                let q = strings_quoted(candidates@);
                assert(q.take(candidates@.len() as int) =~= q);
            }
            output.append("]}");
        },
        ImeAction::HideCandidates => output.append("{\"type\":\"hide_candidates\"}"),
        ImeAction::Commit(text) => {
            output.append("{\"type\":\"commit\",\"text\":");
            write_json_string(output, text.as_str());
            push_char(output, '}');
        },
        ImeAction::Clear => output.append("{\"type\":\"clear\"}"),
        ImeAction::ForwardKey => output.append("{\"type\":\"forward_key\"}"),
    }
}

/// The JSON answer that lists `actions`.
pub fn success_response(actions: &[ImeAction]) -> (s: String)
    ensures
        s@ == success_json(actions@),
{
    let mut output = String::from_str("{\"ok\":true,\"actions\":[");
    let ghost base = output@;
    let ghost items = actions@.map_values(|a: ImeAction| action_json(a));
    for index in 0..actions.len()
        invariant
            items == actions@.map_values(|a: ImeAction| action_json(a)),
            output@ == base + comma_joined(items.take(index as int)),
    {
        if index > 0 {
            push_char(&mut output, ',');
        }
        write_action(&mut output, &actions[index]);
        proof {
            assert(items.take(index + 1) =~= items.take(index as int).push(items[index as int]));
            lemma_comma_joined_push(items.take(index as int), items[index as int]);
        }
    }
    assert(items.take(actions@.len() as int) =~= items);
    output.append("]}");
    output
}


/// How many characters of `t` come before the first quote that is not
/// escaped by a backslash: the length of a JSON string's inside when `t`
/// starts right after its opening quote.
pub open spec fn quoted_body_len(t: Seq<char>) -> Option<nat>
    decreases t.len(),
{
    if t.len() == 0 {
        None
    } else if t[0] == '"' {
        Some(0)
    } else if t[0] == '\\' {
        if t.len() < 2 {
            None
        } else {
            match quoted_body_len(t.skip(2)) {
                Some(n) => Some(n + 2),
                None => None,
            }
        }
    } else {
        match quoted_body_len(t.skip(1)) {
            Some(n) => Some(n + 1),
            None => None,
        }
    }
}

/// Reads JSON string literals separated by commas up to the closing `]`,
/// giving the texts they stand for and what follows the bracket.
pub open spec fn read_string_list(t: Seq<char>) -> Option<(Seq<Seq<char>>, Seq<char>)>
    decreases t.len(),
{
    if t.len() == 0 || t[0] != '"' {
        None
    } else {
        match quoted_body_len(t.skip(1)) {
            None => None,
            Some(n) => if n + 2 >= t.len() {
                None
            } else {
                match unescape_json(t.subrange(1, n + 1int)) {
                    None => None,
                    Some(v) => {
                        let rest = t.skip(n + 2int);
                        if rest[0] == ']' {
                            Some((seq![v], rest.skip(1)))
                        } else if rest[0] == ',' {
                            match read_string_list(rest.skip(1)) {
                                Some(r) => Some((seq![v] + r.0, r.1)),
                                None => None,
                            }
                        } else {
                            None
                        }
                    },
                }
            },
        }
    }
}

/// Reads the rest of a JSON array of strings, starting right after its `[`:
/// the texts of its elements, in order, and what follows the `]`.
pub open spec fn read_json_array(t: Seq<char>) -> Option<(Seq<Seq<char>>, Seq<char>)> {
    if t.len() > 0 && t[0] == ']' {
        Some((Seq::empty(), t.skip(1)))
    } else {
        read_string_list(t)
    }
}

proof fn lemma_quoted_body_char(c: char, tail: Seq<char>)
    ensures
        quoted_body_len(escape_char(c) + tail) == match quoted_body_len(tail) {
            Some(n) => Some(n + escape_char(c).len()),
            None => None::<nat>,
        },
{
    let t = escape_char(c) + tail;
    if c == '"' || c == '\\' || c == '\n' || c == '\r' || c == '\t' {
        assert(t.skip(2) =~= tail);
    } else if is_control(c) {
        let e = escape_char(c);
        assert(e.len() == 6);
        let t2 = t.skip(2);
        let t3 = t2.skip(1);
        let t4 = t3.skip(1);
        let t5 = t4.skip(1);
        let t6 = t5.skip(1);
        assert(t6 =~= tail);
        assert(t2[0] == e[2] && t3[0] == e[3] && t4[0] == e[4] && t5[0] == e[5]);
        assert(t2[0] != '"' && t2[0] != '\\');
        assert(t3[0] != '"' && t3[0] != '\\');
        assert(t4[0] != '"' && t4[0] != '\\');
        assert(t5[0] != '"' && t5[0] != '\\');
        assert(quoted_body_len(t5) == match quoted_body_len(tail) {
            Some(n) => Some(n + 1),
            None => None::<nat>,
        });
        assert(quoted_body_len(t4) == match quoted_body_len(tail) {
            Some(n) => Some(n + 2),
            None => None::<nat>,
        });
        assert(quoted_body_len(t3) == match quoted_body_len(tail) {
            Some(n) => Some(n + 3),
            None => None::<nat>,
        });
        assert(quoted_body_len(t2) == match quoted_body_len(tail) {
            Some(n) => Some(n + 4),
            None => None::<nat>,
        });
    } else {
        assert(t[0] == c);
        assert(t.skip(1) =~= tail);
    }
}

/// The inside of a written JSON string ends exactly at its closing quote.
proof fn lemma_quoted_body(s: Seq<char>, rest: Seq<char>)
    ensures
        quoted_body_len(escaped(s) + seq!['"'] + rest) == Some(escaped(s).len()),
    decreases s.len(),
{
    if s.len() == 0 {
        assert(escaped(s) + seq!['"'] + rest =~= seq!['"'] + rest);
    } else {
        lemma_quoted_body(s.drop_first(), rest);
        lemma_quoted_body_char(s[0], escaped(s.drop_first()) + seq!['"'] + rest);
        assert(escaped(s) + seq!['"'] + rest =~= escape_char(s[0]) + (escaped(s.drop_first()) + seq!['"']
            + rest));
    }
}

proof fn lemma_comma_joined_front(items: Seq<Seq<char>>)
    requires
        items.len() >= 2,
    ensures
        comma_joined(items) == items[0] + seq![','] + comma_joined(items.drop_first()),
    decreases items.len(),
{
    if items.len() == 2 {
        assert(items.drop_last() =~= seq![items[0]]);
        assert(items.drop_first() =~= seq![items[1]]);
        assert(comma_joined(items.drop_last()) == items[0]);
        assert(comma_joined(items.drop_first()) == items[1]);
        assert(items.last() == items[1]);
    } else {
        lemma_comma_joined_front(items.drop_last());
        assert(items.drop_last().drop_first() =~= items.drop_first().drop_last());
        assert(items.drop_first().last() == items.last());
        assert(comma_joined(items.drop_first()) == comma_joined(items.drop_first().drop_last()) + seq![',']
            + items.drop_first().last());
        assert(items.drop_last()[0] == items[0]);
        assert(comma_joined(items) == comma_joined(items.drop_last()) + seq![','] + items.last());
        assert(items[0] + seq![','] + comma_joined(items.drop_first()) =~= (items[0] + seq![',']
            + comma_joined(items.drop_last().drop_first())) + seq![','] + items.last());
    }
}

/// Reading one written JSON string and what follows it.
proof fn lemma_read_one(v: Seq<char>, after: Seq<char>)
    requires
        after.len() > 0,
    ensures
        read_string_list(json_quoted(v) + after) == if after[0] == ']' {
            Some((seq![v], after.skip(1)))
        } else if after[0] == ',' {
            match read_string_list(after.skip(1)) {
                Some(r) => Some((seq![v] + r.0, r.1)),
                None => None,
            }
        } else {
            None
        },
{
    let t = json_quoted(v) + after;
    assert(t =~= seq!['"'] + (escaped(v) + seq!['"'] + after));
    lemma_quoted_body(v, after);
    let n = escaped(v).len();
    assert(t.skip(1) =~= escaped(v) + seq!['"'] + after);
    assert(t.subrange(1, n + 1int) =~= escaped(v));
    law_json_string_round_trip(v);
    assert(t.skip(n + 2int) =~= after);
}

/// Reading back JSON strings written one after the other with commas, and
/// then `]`, gives the texts written, in order.
proof fn lemma_read_string_list(vs: Seq<Seq<char>>, rest: Seq<char>)
    requires
        vs.len() > 0,
    ensures
        read_string_list(
            comma_joined(vs.map_values(|s: Seq<char>| json_quoted(s))) + seq![']'] + rest,
        ) == Some((vs, rest)),
    decreases vs.len(),
{
    let q = vs.map_values(|s: Seq<char>| json_quoted(s));
    let v = vs[0];
    let t = comma_joined(q) + seq![']'] + rest;
    if vs.len() == 1 {
        assert(comma_joined(q) == q[0]);
        let after = seq![']'] + rest;
        assert(t =~= json_quoted(v) + after);
        lemma_read_one(v, after);
        assert(after.skip(1) =~= rest);
        assert(seq![v] =~= vs);
    } else {
        lemma_comma_joined_front(q);
        let vt = vs.drop_first();
        assert(q.drop_first() =~= vt.map_values(|s: Seq<char>| json_quoted(s)));
        let inner = comma_joined(q.drop_first()) + seq![']'] + rest;
        let after = seq![','] + inner;
        assert(t =~= json_quoted(v) + after);
        lemma_read_one(v, after);
        assert(after.skip(1) =~= inner);
        lemma_read_string_list(vt, rest);
        assert(seq![v] + vt =~= vs);
    }
}

/// A show_candidates answer lists every candidate: after its head (type and
/// selected index), reading back the JSON array gives exactly the
/// candidates, in order, each as often, followed by the closing brace.
pub proof fn law_show_candidates_lists_every_candidate(candidates: Vec<String>, selected: usize)
    ensures
        ({
            let json = action_json(ImeAction::ShowCandidates { candidates, selected });
            let head = "{\"type\":\"show_candidates\",\"selected\":"@ + decimal_text(selected as nat)
                + ",\"candidates\":["@;
            &&& json.take(head.len() as int) == head
            &&& read_json_array(json.skip(head.len() as int)) == Some(
                (candidates@.map_values(|s: String| s@), seq!['}']),
            )
        }),
{
    let json = action_json(ImeAction::ShowCandidates { candidates, selected });
    let head = "{\"type\":\"show_candidates\",\"selected\":"@ + decimal_text(selected as nat)
        + ",\"candidates\":["@;
    let vs = candidates@.map_values(|s: String| s@);
    let q = vs.map_values(|s: Seq<char>| json_quoted(s));
    assert(strings_quoted(candidates@) =~= q);
    reveal_strlit("]}");
    assert("]}"@ =~= seq![']'] + seq!['}']);
    let body = comma_joined(q) + seq![']'] + seq!['}'];
    assert(json =~= head + body);
    assert(json.take(head.len() as int) =~= head);
    assert(json.skip(head.len() as int) =~= body);
    if vs.len() == 0 {
        assert(comma_joined(q) =~= Seq::<char>::empty());
        assert(body.skip(1) =~= seq!['}']);
        assert(vs =~= Seq::<Seq<char>>::empty());
    } else {
        lemma_read_string_list(vs, seq!['}']);
        assert(body[0] == '"');
    }
}

/// Reads one JSON string literal at the start of `t`: the text it stands
/// for and what follows its closing quote.
pub open spec fn read_json_string(t: Seq<char>) -> Option<(Seq<char>, Seq<char>)> {
    if t.len() == 0 || t[0] != '"' {
        None
    } else {
        match quoted_body_len(t.skip(1)) {
            None => None,
            Some(n) => match unescape_json(t.subrange(1, n + 1int)) {
                None => None,
                Some(v) => Some((v, t.skip(n + 2int))),
            },
        }
    }
}

/// A written JSON string reads back as the text written, and reading stops
/// right after it.
pub proof fn law_json_string_reads_back(s: Seq<char>, rest: Seq<char>)
    ensures
        read_json_string(json_quoted(s) + rest) == Some((s, rest)),
{
    let t = json_quoted(s) + rest;
    assert(t =~= seq!['"'] + (escaped(s) + seq!['"'] + rest));
    lemma_quoted_body(s, rest);
    let n = escaped(s).len();
    assert(t.skip(1) =~= escaped(s) + seq!['"'] + rest);
    assert(t.subrange(1, n + 1int) =~= escaped(s));
    law_json_string_round_trip(s);
    assert(t.skip(n + 2int) =~= rest);
}

/// The number that decimal digits stand for, most significant first.
pub open spec fn digits_value(d: Seq<char>) -> int
    decreases d.len(),
{
    if d.len() == 0 {
        0
    } else {
        digits_value(d.drop_last()) * 10 + (d.last() as u32 - '0' as u32)
    }
}

/// The decimal text of a number is one or more digits, without a leading
/// zero unless it is `0`, and reads back as the number.
pub proof fn law_decimal_text_reads_back(n: nat)
    ensures
        decimal_text(n).len() > 0,
        forall|k: int| 0 <= k < decimal_text(n).len() ==> '0' <= #[trigger] decimal_text(n)[k] <= '9',
        decimal_text(n)[0] != '0' || n == 0,
        digits_value(decimal_text(n)) == n,
    decreases n,
{
    let d = decimal_text(n);
    if n >= 10 {
        law_decimal_text_reads_back(n / 10);
        let front = decimal_text(n / 10);
        assert(d.drop_last() =~= front);
        assert(d[0] == front[0]);
        assert(forall|k: int| 0 <= k < front.len() ==> d[k] == front[k]);
        let r = (n % 10) as u32;
        assert(d.last() == ((('0' as u32) + r) as char));
        assert(((('0' as u32) + r) as char) as u32 == ('0' as u32) + r);
        assert(digits_value(d) == digits_value(front) * 10 + r);
        assert(n == (n / 10) * 10 + n % 10);
    } else {
        assert(d.len() == 1);
        assert(d.drop_last() =~= Seq::<char>::empty());
        assert(digits_value(d.drop_last()) == 0);
        assert(((('0' as u32) + n) as char) as u32 == ('0' as u32) + n);
        assert(digits_value(d) == 0 * 10 + (d.last() as u32 - '0' as u32));
    }
}

/// An update_preedit or commit answer carries its text: after the head
/// naming the action, the JSON string reads back as exactly the text, and
/// only the closing brace follows.
pub proof fn law_text_actions_carry_text(text: String)
    ensures
        ({
            let json = action_json(ImeAction::UpdatePreedit(text));
            let head = "{\"type\":\"update_preedit\",\"text\":"@;
            &&& json.take(head.len() as int) == head
            &&& read_json_string(json.skip(head.len() as int)) == Some((text@, seq!['}']))
        }),
        ({
            let json = action_json(ImeAction::Commit(text));
            let head = "{\"type\":\"commit\",\"text\":"@;
            &&& json.take(head.len() as int) == head
            &&& read_json_string(json.skip(head.len() as int)) == Some((text@, seq!['}']))
        }),
{
    let j1 = action_json(ImeAction::UpdatePreedit(text));
    let h1 = "{\"type\":\"update_preedit\",\"text\":"@;
    assert(j1.take(h1.len() as int) =~= h1);
    assert(j1.skip(h1.len() as int) =~= json_quoted(text@) + seq!['}']);
    let j2 = action_json(ImeAction::Commit(text));
    let h2 = "{\"type\":\"commit\",\"text\":"@;
    assert(j2.take(h2.len() as int) =~= h2);
    assert(j2.skip(h2.len() as int) =~= json_quoted(text@) + seq!['}']);
    law_json_string_reads_back(text@, seq!['}']);
}

/// An error answer carries its message: after its head, the JSON string
/// reads back as exactly the message, and only the closing brace follows.
pub proof fn law_error_answer_carries_message(error: Seq<char>)
    ensures
        ({
            let json = error_json(error);
            let head = "{\"ok\":false,\"error\":"@;
            &&& json.take(head.len() as int) == head
            &&& read_json_string(json.skip(head.len() as int)) == Some((error, seq!['}']))
        }),
{
    let json = error_json(error);
    let head = "{\"ok\":false,\"error\":"@;
    assert(json.take(head.len() as int) =~= head);
    assert(json.skip(head.len() as int) =~= json_quoted(error) + seq!['}']);
    law_json_string_reads_back(error, seq!['}']);
}

/// The answer for no actions is an empty list.
pub proof fn law_success_without_actions()
    ensures
        success_json(Seq::<ImeAction>::empty()) == "{\"ok\":true,\"actions\":["@ + "]}"@,
{
    assert(Seq::<ImeAction>::empty().map_values(|a: ImeAction| action_json(a)) =~= Seq::<Seq<char>>::empty());
    assert("{\"ok\":true,\"actions\":["@ + Seq::<char>::empty() =~= "{\"ok\":true,\"actions\":["@);
}

/// One more action adds its JSON object at the end of the list, after a
/// comma when the list was not empty: every action is answered, in order.
pub proof fn law_success_lists_every_action(actions: Seq<ImeAction>, a: ImeAction)
    ensures
        ({
            let before = success_json(actions);
            let trimmed = before.take(before.len() - 2);
            success_json(actions.push(a)) == trimmed + (if actions.len() == 0 {
                Seq::<char>::empty()
            } else {
                seq![',']
            }) + action_json(a) + "]}"@
        }),
{
    let items = actions.map_values(|x: ImeAction| action_json(x));
    let head = "{\"ok\":true,\"actions\":["@;
    reveal_strlit("]}");
    assert(actions.push(a).map_values(|x: ImeAction| action_json(x)) =~= items.push(action_json(a)));
    lemma_comma_joined_push(items, action_json(a));
    let before = success_json(actions);
    assert(before.take(before.len() - 2) =~= head + comma_joined(items));
    if actions.len() == 0 {
        assert(comma_joined(items) =~= Seq::<char>::empty());
        assert(head + comma_joined(items) + Seq::<char>::empty() + action_json(a) + "]}"@ =~= head
            + comma_joined(items.push(action_json(a))) + "]}"@);
    } else {
        assert(head + comma_joined(items) + seq![','] + action_json(a) + "]}"@ =~= head + comma_joined(
            items.push(action_json(a)),
        ) + "]}"@);
    }
}

} // verus!
