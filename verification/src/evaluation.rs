//! The logic of the offline evaluation tool: its options, the choice of
//! evaluation items, katakana folding, and the integer parts of its metrics.

use vstd::prelude::*;

use crate::converter::Candidate;
use crate::text::{char_from_scalar, chars_of, push_char, same_chars};
use vstd::string::StringExecFns;

verus! {

/// What Rust's `Debug` formatting makes of a string: the string quoted, with
/// quotes, backslashes and unprintable characters escaped.
pub uninterp spec fn debug_quoted(s: Seq<char>) -> Seq<char>;

/// Formats `s` with `{:?}` (`<str as Debug>::fmt`). Trusted: the result is
/// `debug_quoted` of the characters of `s`; the escaping rules themselves are
/// not stated.
#[verifier::external_body]
fn debug_quote(s: &str) -> (r: String)
    ensures
        r@ == debug_quoted(s@),
{
    format!("{s:?}")
}

/// Which evaluation items to use, by whether they have left context.
/// (`Absent` selects the items without left context.)
#[derive(Clone, Copy, Debug, PartialEq, Eq)]
pub enum ContextFilter {
    All,
    Absent,
    Present,
}

/// One evaluation item: its id, left context, kana input and accepted outputs.
#[derive(Clone, Debug, PartialEq, Eq)]
pub struct AjimeeItem {
    pub index: String,
    pub context_text: String,
    pub input: String,
    pub expected_output: Vec<String>,
}

/// The error for a `--context` value other than all, none or present.
pub open spec fn invalid_context_message(value: Seq<char>) -> Seq<char> {
    "invalid --context value "@ + debug_quoted(value) + "; expected all, none, or present"@
}

/// The filter that a `--context` value names.
pub open spec fn context_filter_of(value: Seq<char>) -> Result<ContextFilter, Seq<char>> {
    if value == "all"@ {
        Ok(ContextFilter::All)
    } else if value == "none"@ {
        Ok(ContextFilter::Absent)
    } else if value == "present"@ {
        Ok(ContextFilter::Present)
    } else {
        Err(invalid_context_message(value))
    }
}

pub open spec fn result_view<T>(r: Result<T, String>) -> Result<T, Seq<char>> {
    match r {
        Ok(v) => Ok(v),
        Err(e) => Err(e@),
    }
}

/// Whether the string `s` spells the literal `lit`.
fn spells(s: &str, lit: &str) -> (r: bool)
    ensures
        r == (s@ == lit@),
{
    let a = chars_of(s);
    let b = chars_of(lit);
    same_chars(a.as_slice(), b.as_slice())
}

impl ContextFilter {
    /// Reads a `--context` value: `all`, `none` or `present`.
    pub fn parse(value: &str) -> (r: Result<Self, String>)
        ensures
            result_view(r) == context_filter_of(value@),
    {
        if spells(value, "all") {
            Ok(ContextFilter::All)
        } else if spells(value, "none") {
            Ok(ContextFilter::Absent)
        } else if spells(value, "present") {
            Ok(ContextFilter::Present)
        } else {
            let mut message = String::from_str("invalid --context value ");
            message.append(debug_quote(value).as_str());
            message.append("; expected all, none, or present");
            Err(message)
        }
    }

    /// Whether `item` is selected: all items, those without left context, or
    /// those with it.
    pub fn includes(self, item: &AjimeeItem) -> (r: bool)
        ensures
            r == match self {
                ContextFilter::All => true,
                ContextFilter::Absent => item.context_text@.len() == 0,
                ContextFilter::Present => item.context_text@.len() != 0,
            },
    {
        match self {
            ContextFilter::All => true,
            ContextFilter::Absent => item.context_text.as_str().is_empty(),
            ContextFilter::Present => !item.context_text.as_str().is_empty(),
        }
    }
}


/// The usage line of the evaluation tool.
pub open spec fn usage_text() -> Seq<char> {
    "usage: ime-evaluate ajimee <evaluation_items.json> [--top-k N] [--context all|none|present] [--limit N] [--failures N] [--json]"@
}

/// The usage line of the evaluation tool.
pub fn usage() -> (s: String)
    ensures
        s@ == usage_text(),
{
    String::from_str(
        "usage: ime-evaluate ajimee <evaluation_items.json> [--top-k N] [--context all|none|present] [--limit N] [--failures N] [--json]",
    )
}

pub open spec fn is_digit(c: char) -> bool {
    '0' <= c && c <= '9'
}

/// The number that the decimal digits `d` spell.
pub open spec fn digits_value(d: Seq<char>) -> nat
    decreases d.len(),
{
    if d.len() == 0 {
        0
    } else {
        digits_value(d.drop_last()) * 10 + ((d.last() as u32) - ('0' as u32)) as nat
    }
}

/// `s` without one leading `+`.
pub open spec fn unsigned_digits(s: Seq<char>) -> Seq<char> {
    if s.len() > 0 && s[0] == '+' {
        s.drop_first()
    } else {
        s
    }
}

/// The `usize` that `s` spells as `usize::from_str` reads it: an optional
/// `+` and at least one decimal digit, with a value that fits.
pub open spec fn parsed_usize(s: Seq<char>) -> Option<usize> {
    let d = unsigned_digits(s);
    if d.len() > 0 && (forall|i: int| 0 <= i < d.len() ==> is_digit(#[trigger] d[i]))
        && digits_value(d) <= usize::MAX {
        Some(digits_value(d) as usize)
    } else {
        None
    }
}

/// A prefix of a digit string never spells more than the whole.
proof fn lemma_digits_value_prefix(d: Seq<char>, k: int)
    requires
        0 <= k <= d.len(),
        forall|i: int| 0 <= i < d.len() ==> is_digit(#[trigger] d[i]),
    ensures
        digits_value(d.take(k)) <= digits_value(d),
    decreases d.len() - k,
{
    if k < d.len() {
        lemma_digits_value_prefix(d, k + 1);
        let t = d.take(k + 1);
        assert(t.drop_last() =~= d.take(k));
        assert(is_digit(t.last()));
        assert(digits_value(t) == digits_value(d.take(k)) * 10 + ((t.last() as u32) - ('0' as u32)) as nat);
    } else {
        assert(d.take(k) =~= d);
    }
}

/// Reads `s` as `usize::from_str` does.
pub fn parse_decimal(s: &str) -> (r: Option<usize>)
    ensures
        r == parsed_usize(s@),
{
    let chars = chars_of(s);
    let mut i: usize = 0;
    if chars.len() > 0 && chars[0] == '+' {
        i = 1;
    }
    let ghost d = unsigned_digits(s@);
    let ghost off = i as int;
    assert(d =~= chars@.skip(off));
    if i == chars.len() {
        return None;
    }
    let mut value: usize = 0;
    assert(d.take(0) =~= Seq::<char>::empty());
    while i < chars.len()
        invariant
            chars@ == s@,
            d == unsigned_digits(s@),
            0 <= off <= i <= chars@.len(),
            d =~= chars@.skip(off),
            forall|t: int| 0 <= t < i - off ==> is_digit(#[trigger] d[t]),
            value == digits_value(d.take(i - off)),
        decreases chars.len() - i,
    {
        let c = chars[i];
        let ghost k = i - off;
        assert(d[k] == c);
        if !('0' <= c && c <= '9') {
            assert(!is_digit(d[k]));
            return None;
        }
        assert(d.take(k + 1).drop_last() =~= d.take(k));
        assert(d.take(k + 1).last() == c);
        let digit = (c as u32 - '0' as u32) as usize;
        match value.checked_mul(10) {
            Some(v10) => match v10.checked_add(digit) {
                Some(next) => {
                    value = next;
                },
                None => {
                    proof { lemma_overflow_is_none(s@, k + 1); }
                    return None;
                },
            },
            None => {
                proof { lemma_overflow_is_none(s@, k + 1); }
                return None;
            },
        }
        i = i + 1;
    }
    assert(d.take(d.len() as int) =~= d);
    assert(d.len() > 0);
    Some(value)
}

/// Once a prefix of the digits spells more than `usize::MAX`, the whole does
/// not parse.
proof fn lemma_overflow_is_none(s: Seq<char>, k: int)
    requires
        0 <= k <= unsigned_digits(s).len(),
        digits_value(unsigned_digits(s).take(k)) > usize::MAX,
    ensures
        parsed_usize(s) is None,
{
    let d = unsigned_digits(s);
    if d.len() > 0 && (forall|i: int| 0 <= i < d.len() ==> is_digit(#[trigger] d[i])) {
        lemma_digits_value_prefix(d, k);
    }
}

/// The value of the option `name`, read as a `usize`.
pub open spec fn usize_option(name: Seq<char>, value: Option<Seq<char>>) -> Result<usize, Seq<char>> {
    match value {
        None => Err(name + " requires a value"@),
        Some(v) => match parsed_usize(v) {
            Some(n) => Ok(n),
            None => Err(name + " requires a non-negative integer"@),
        },
    }
}

/// The value of the option `name`, read as a `usize` above zero.
pub open spec fn positive_option(name: Seq<char>, value: Option<Seq<char>>) -> Result<usize, Seq<char>> {
    match usize_option(name, value) {
        Ok(n) => if n == 0 {
            Err(name + " must be greater than zero"@)
        } else {
            Ok(n)
        },
        Err(e) => Err(e),
    }
}

pub open spec fn opt_view(o: Option<String>) -> Option<Seq<char>> {
    match o {
        Some(s) => Some(s@),
        None => None,
    }
}

/// Reads the value of the option `name` as a `usize`.
pub fn parse_usize(name: &str, value: Option<String>) -> (r: Result<usize, String>)
    ensures
        result_view(r) == usize_option(name@, opt_view(value)),
{
    match value {
        None => {
            let mut message = String::from_str(name);
            message.append(" requires a value");
            Err(message)
        },
        Some(v) => match parse_decimal(v.as_str()) {
            Some(n) => Ok(n),
            None => {
                let mut message = String::from_str(name);
                message.append(" requires a non-negative integer");
                Err(message)
            },
        },
    }
}

/// Reads the value of the option `name` as a `usize` above zero.
pub fn parse_positive(name: &str, value: Option<String>) -> (r: Result<usize, String>)
    ensures
        result_view(r) == positive_option(name@, opt_view(value)),
{
    let parsed = parse_usize(name, value)?;
    if parsed == 0 {
        let mut message = String::from_str(name);
        message.append(" must be greater than zero");
        return Err(message);
    }
    Ok(parsed)
}


/// The evaluation options.
#[derive(Clone, Debug, PartialEq, Eq)]
pub struct Options {
    pub input: String,
    pub dataset_revision: Option<String>,
    pub dataset_sha256: Option<String>,
    pub top_k: usize,
    pub context: ContextFilter,
    pub limit: Option<usize>,
    pub failures: usize,
    pub json: bool,
}

/// The evaluation options as mathematical values.
pub struct OptionsModel {
    pub input: Seq<char>,
    pub dataset_revision: Option<Seq<char>>,
    pub dataset_sha256: Option<Seq<char>>,
    pub top_k: usize,
    pub context: ContextFilter,
    pub limit: Option<usize>,
    pub failures: usize,
    pub json: bool,
}

impl View for Options {
    type V = OptionsModel;

    open spec fn view(&self) -> OptionsModel {
        OptionsModel {
            input: self.input@,
            dataset_revision: opt_view(self.dataset_revision),
            dataset_sha256: opt_view(self.dataset_sha256),
            top_k: self.top_k,
            context: self.context,
            limit: self.limit,
            failures: self.failures,
            json: self.json,
        }
    }
}

pub open spec fn arg_at(args: Seq<Seq<char>>, i: int) -> Option<Seq<char>> {
    if 0 <= i < args.len() {
        Some(args[i])
    } else {
        None
    }
}

/// The options after reading the flags `args[i..]` on top of `o`.
pub open spec fn parse_flags(args: Seq<Seq<char>>, i: int, o: OptionsModel) -> Result<OptionsModel, Seq<char>>
    decreases args.len() - i,
{
    if i < 0 || i >= args.len() {
        Ok(o)
    } else {
        let a = args[i];
        if a == "--top-k"@ {
            match positive_option("--top-k"@, arg_at(args, i + 1)) {
                Ok(v) => parse_flags(args, i + 2, OptionsModel { top_k: v, ..o }),
                Err(e) => Err(e),
            }
        } else if a == "--context"@ {
            match arg_at(args, i + 1) {
                None => Err("--context requires a value"@),
                Some(v) => match context_filter_of(v) {
                    Ok(c) => parse_flags(args, i + 2, OptionsModel { context: c, ..o }),
                    Err(e) => Err(e),
                },
            }
        } else if a == "--limit"@ {
            match positive_option("--limit"@, arg_at(args, i + 1)) {
                Ok(v) => parse_flags(args, i + 2, OptionsModel { limit: Some(v), ..o }),
                Err(e) => Err(e),
            }
        } else if a == "--failures"@ {
            match usize_option("--failures"@, arg_at(args, i + 1)) {
                Ok(v) => parse_flags(args, i + 2, OptionsModel { failures: v, ..o }),
                Err(e) => Err(e),
            }
        } else if a == "--json"@ {
            parse_flags(args, i + 1, OptionsModel { json: true, ..o })
        } else if a == "--help"@ || a == "-h"@ {
            Err(usage_text())
        } else {
            Err("unknown argument "@ + debug_quoted(a) + "\n"@ + usage_text())
        }
    }
}

/// The options that the command line `args` asks for: the format `ajimee`,
/// the input file, then flags. The dataset revision and checksum are given
/// as they are.
pub open spec fn parse_options(
    args: Seq<Seq<char>>,
    dataset_revision: Option<Seq<char>>,
    dataset_sha256: Option<Seq<char>>,
) -> Result<OptionsModel, Seq<char>> {
    if args.len() < 1 {
        Err(usage_text())
    } else if args[0] != "ajimee"@ {
        Err("unsupported evaluation format "@ + debug_quoted(args[0]) + "\n"@ + usage_text())
    } else if args.len() < 2 {
        Err(usage_text())
    } else {
        parse_flags(
            args,
            2,
            OptionsModel {
                input: args[1],
                dataset_revision,
                dataset_sha256,
                top_k: 10,
                context: ContextFilter::All,
                limit: None,
                failures: 10,
                json: false,
            },
        )
    }
}

pub open spec fn options_result(r: Result<Options, String>) -> Result<OptionsModel, Seq<char>> {
    match r {
        Ok(o) => Ok(o@),
        Err(e) => Err(e@),
    }
}

pub open spec fn strings_view(v: Seq<String>) -> Seq<Seq<char>> {
    v.map_values(|s: String| s@)
}

/// The argument after position `i`, if there is one.
fn next_argument(arguments: &Vec<String>, i: usize) -> (r: Option<String>)
    ensures
        opt_view(r) == arg_at(strings_view(arguments@), i + 1),
{
    if i < arguments.len() && i + 1 < arguments.len() {
        Some(arguments[i + 1].clone())
    } else {
        None
    }
}

impl Options {
    /// Reads the command line `arguments`; `dataset_revision` and
    /// `dataset_sha256` are kept as given.
    pub fn parse(
        arguments: Vec<String>,
        dataset_revision: Option<String>,
        dataset_sha256: Option<String>,
    ) -> (r: Result<Self, String>)
        ensures
            options_result(r) == parse_options(
                strings_view(arguments@),
                opt_view(dataset_revision),
                opt_view(dataset_sha256),
            ),
    {
        let ghost args = strings_view(arguments@);
        if arguments.len() < 1 {
            return Err(usage());
        }
        if !spells(arguments[0].as_str(), "ajimee") {
            let mut message = String::from_str("unsupported evaluation format ");
            message.append(debug_quote(arguments[0].as_str()).as_str());
            message.append("\n");
            message.append(usage().as_str());
            return Err(message);
        }
        if arguments.len() < 2 {
            return Err(usage());
        }
        let mut options = Options {
            input: arguments[1].clone(),
            dataset_revision,
            dataset_sha256,
            top_k: 10,
            context: ContextFilter::All,
            limit: None,
            failures: 10,
            json: false,
        };
        let mut i: usize = 2;
        while i < arguments.len()
            invariant
                args == strings_view(arguments@),
                2 <= i,
                parse_options(args, opt_view(dataset_revision), opt_view(dataset_sha256)) == parse_flags(args, i as int, options@),
            decreases arguments.len() - i,
        {
            let argument = arguments[i].as_str();
            assert(args[i as int] == argument@);
            if spells(argument, "--top-k") {
                options.top_k = parse_positive("--top-k", next_argument(&arguments, i))?;
                i = i + 2;
            } else if spells(argument, "--context") {
                let value = match next_argument(&arguments, i) {
                    Some(v) => v,
                    None => {
                        return Err(String::from_str("--context requires a value"));
                    },
                };
                options.context = ContextFilter::parse(value.as_str())?;
                i = i + 2;
            } else if spells(argument, "--limit") {
                options.limit = Some(parse_positive("--limit", next_argument(&arguments, i))?);
                i = i + 2;
            } else if spells(argument, "--failures") {
                options.failures = parse_usize("--failures", next_argument(&arguments, i))?;
                i = i + 2;
            } else if spells(argument, "--json") {
                options.json = true;
                i = i + 1;
            } else if spells(argument, "--help") || spells(argument, "-h") {
                return Err(usage());
            } else {
                let mut message = String::from_str("unknown argument ");
                message.append(debug_quote(argument).as_str());
                message.append("\n");
                message.append(usage().as_str());
                return Err(message);
            }
        }
        Ok(options)
    }
}


/// Full-width katakana that have a hiragana counterpart: ァ..ヶ, ヽ and ヾ.
pub open spec fn is_foldable_katakana(c: char) -> bool {
    ('ァ' <= c && c <= 'ヶ') || c == 'ヽ' || c == 'ヾ'
}

/// `c` with foldable katakana turned into hiragana (0x60 code points lower).
pub open spec fn katakana_folded(c: char) -> char {
    if is_foldable_katakana(c) {
        ((c as u32) - 0x60) as char
    } else {
        c
    }
}

/// Folding keeps the length and changes exactly the katakana ァ..ヶ, ヽ and
/// ヾ, each to the character 0x60 code points below it (its hiragana);
/// every other character (ー, ・, 、, kanji, hiragana, ASCII) is kept as it is.
pub proof fn law_katakana_folding(s: Seq<char>)
    ensures
        s.map_values(|c: char| katakana_folded(c)).len() == s.len(),
        forall|i: int|
            0 <= i < s.len() ==> if ('ァ' <= #[trigger] s[i] && s[i] <= 'ヶ') || s[i] == 'ヽ' || s[i] == 'ヾ' {
                s.map_values(|c: char| katakana_folded(c))[i] as u32 + 0x60 == s[i] as u32
            } else {
                s.map_values(|c: char| katakana_folded(c))[i] == s[i]
            },
{
    assert forall|i: int| 0 <= i < s.len() implies if ('ァ' <= #[trigger] s[i] && s[i] <= 'ヶ') || s[i] == 'ヽ'
        || s[i] == 'ヾ' {
        s.map_values(|c: char| katakana_folded(c))[i] as u32 + 0x60 == s[i] as u32
    } else {
        s.map_values(|c: char| katakana_folded(c))[i] == s[i]
    } by {
        let c = s[i];
        if ('ァ' <= c && c <= 'ヶ') || c == 'ヽ' || c == 'ヾ' {
            assert(0x30A1 <= c as u32 <= 0x30FE);
            assert((((c as u32) - 0x60) as char) as u32 == (c as u32) - 0x60);
        }
    }
}

/// `input` with every foldable katakana turned into its hiragana; every other
/// character is kept.
pub fn katakana_to_hiragana(input: &str) -> (r: String)
    ensures
        r@ == input@.map_values(|c: char| katakana_folded(c)),
        r@.len() == input@.len(),
        forall|i: int|
            0 <= i < input@.len() ==> if ('ァ' <= #[trigger] input@[i] && input@[i] <= 'ヶ') || input@[i] == 'ヽ'
                || input@[i] == 'ヾ' {
                r@[i] as u32 + 0x60 == input@[i] as u32
            } else {
                r@[i] == input@[i]
            },
{
    proof {
        law_katakana_folding(input@);
    }
    let chars = chars_of(input);
    let mut out = String::new();
    for i in 0..chars.len()
        invariant
            chars@ == input@,
            out@ == input@.take(i as int).map_values(|c: char| katakana_folded(c)),
    {
        let c = chars[i];
        let folded = if ('ァ' <= c && c <= 'ヶ') || c == 'ヽ' || c == 'ヾ' {
            assert(0x30A1 <= c as u32 <= 0x30FE);
            match char_from_scalar(c as u32 - 0x60) {
                Some(h) => {
                    h
                },
                None => c,
            }
        } else {
            c
        };
        assert(folded == katakana_folded(c));
        push_char(&mut out, folded);
        assert(input@.take(i + 1).map_values(|c: char| katakana_folded(c)) =~= input@.take(
            i as int,
        ).map_values(|c: char| katakana_folded(c)).push(katakana_folded(c)));
    }
    assert(input@.take(chars@.len() as int) =~= input@);
    out
}


pub open spec fn min3(a: nat, b: nat, c: nat) -> nat {
    if a <= b && a <= c {
        a
    } else if b <= c {
        b
    } else {
        c
    }
}

/// The Levenshtein distance between `a` and `b`: the fewest single-character
/// insertions, deletions and substitutions that turn `a` into `b`.
pub open spec fn edit_distance_of(a: Seq<char>, b: Seq<char>) -> nat
    decreases a.len() + b.len(),
{
    if a.len() == 0 {
        b.len()
    } else if b.len() == 0 {
        a.len()
    } else {
        min3(
            edit_distance_of(a.drop_last(), b) + 1,
            edit_distance_of(a, b.drop_last()) + 1,
            edit_distance_of(a.drop_last(), b.drop_last()) + if a.last() == b.last() {
                0nat
            } else {
                1nat
            },
        )
    }
}

/// The distance never exceeds the longer of the two lengths.
pub proof fn lemma_edit_distance_bound(a: Seq<char>, b: Seq<char>)
    ensures
        edit_distance_of(a, b) <= if a.len() >= b.len() { a.len() } else { b.len() },
    decreases a.len() + b.len(),
{
    if a.len() > 0 && b.len() > 0 {
        lemma_edit_distance_bound(a.drop_last(), b.drop_last());
    }
}

/// The Levenshtein distance between the characters of `reference` and those
/// of `hypothesis`, computed one row of the table at a time.
pub fn edit_distance(reference: &Vec<char>, hypothesis: &Vec<char>) -> (d: usize)
    requires
        reference@.len() < usize::MAX,
        hypothesis@.len() < usize::MAX,
    ensures
        d == edit_distance_of(reference@, hypothesis@),
{
    let h = hypothesis.len();
    let mut previous: Vec<usize> = Vec::new();
    for j in 0..h + 1
        invariant
            h == hypothesis@.len(),
            previous@.len() == j,
            forall|t: int| 0 <= t < j ==> #[trigger] previous@[t] == t,
    {
        previous.push(j);
    }
    assert forall|t: int| 0 <= t <= h implies #[trigger] previous@[t] == edit_distance_of(
        reference@.take(0),
        hypothesis@.take(t),
    ) by {
        assert(reference@.take(0).len() == 0);
    }
    for r in 0..reference.len()
        invariant
            h == hypothesis@.len(),
            reference@.len() < usize::MAX,
            h < usize::MAX,
            previous@.len() == h + 1,
            forall|t: int|
                0 <= t <= h ==> #[trigger] previous@[t] == edit_distance_of(
                    reference@.take(r as int),
                    hypothesis@.take(t),
                ),
    {
        let ghost a = reference@.take(r + 1);
        assert(a.drop_last() =~= reference@.take(r as int));
        let mut current: Vec<usize> = Vec::new();
        current.push(r + 1);
        assert(hypothesis@.take(0).len() == 0);
        for j in 0..h
            invariant
                h == hypothesis@.len(),
                h < usize::MAX,
                r < reference@.len(),
                reference@.len() < usize::MAX,
                a == reference@.take(r + 1),
                a.drop_last() == reference@.take(r as int),
                previous@.len() == h + 1,
                forall|t: int|
                    0 <= t <= h ==> #[trigger] previous@[t] == edit_distance_of(
                        reference@.take(r as int),
                        hypothesis@.take(t),
                    ),
                current@.len() == j + 1,
                forall|t: int|
                    0 <= t <= j ==> #[trigger] current@[t] == edit_distance_of(a, hypothesis@.take(t)),
        {
            let ghost b = hypothesis@.take(j + 1);
            assert(b.drop_last() =~= hypothesis@.take(j as int));
            proof {
                lemma_edit_distance_bound(a.drop_last(), b);
                lemma_edit_distance_bound(a, b.drop_last());
                lemma_edit_distance_bound(a.drop_last(), b.drop_last());
            }
            let deletion = previous[j + 1] + 1;
            let insertion = current[j] + 1;
            let substitution = previous[j] + if reference[r] != hypothesis[j] { 1 } else { 0 };
            let mut best = deletion;
            if insertion < best {
                best = insertion;
            }
            if substitution < best {
                best = substitution;
            }
            assert(a.last() == reference@[r as int]);
            assert(b.last() == hypothesis@[j as int]);
            assert(best == edit_distance_of(a, b));
            current.push(best);
        }
        previous = current;
    }
    assert(reference@.take(reference@.len() as int) =~= reference@);
    assert(hypothesis@.take(h as int) =~= hypothesis@);
    previous[h]
}

/// The nearest-rank position of the `percentile`-th percentile among `len`
/// sorted values: ceil(len * percentile / 100) - 1 (the product saturating),
/// kept within 0..len.
pub open spec fn percentile_rank_of(len: usize, percentile: usize) -> usize {
    let product: int = if len * percentile > usize::MAX {
        usize::MAX as int
    } else {
        len * percentile
    };
    let ceiling: int = (product + 99) / 100;
    let rank: int = if ceiling == 0 {
        0
    } else {
        ceiling - 1
    };
    if rank < len - 1 {
        rank as usize
    } else {
        (len - 1) as usize
    }
}

/// The nearest-rank position of the `percentile`-th percentile among `len`
/// sorted values.
pub fn percentile_rank(len: usize, percentile: usize) -> (rank: usize)
    requires
        len > 0,
    ensures
        rank == percentile_rank_of(len, percentile),
        rank < len,
{
    let product = match len.checked_mul(percentile) {
        Some(p) => p,
        None => usize::MAX,
    };
    let ceiling = product / 100 + if product % 100 != 0 { 1 } else { 0 };
    assert(ceiling == (product + 99) / 100);
    let rank = if ceiling == 0 { 0 } else { ceiling - 1 };
    if rank < len - 1 {
        rank
    } else {
        len - 1
    }
}

/// The indices of the first `limit` items that `filter` selects.
pub open spec fn selected_upto(items: Seq<AjimeeItem>, filter: ContextFilter, limit: nat, j: int) -> Seq<usize>
    decreases j,
{
    if j <= 0 {
        Seq::empty()
    } else {
        let before = selected_upto(items, filter, limit, j - 1);
        if before.len() < limit && selects(filter, items[j - 1]) {
            before.push((j - 1) as usize)
        } else {
            before
        }
    }
}

pub open spec fn selects(filter: ContextFilter, item: AjimeeItem) -> bool {
    match filter {
        ContextFilter::All => true,
        ContextFilter::Absent => item.context_text@.len() == 0,
        ContextFilter::Present => item.context_text@.len() != 0,
    }
}

pub open spec fn limit_of(limit: Option<usize>) -> nat {
    match limit {
        Some(n) => n as nat,
        None => usize::MAX as nat,
    }
}

/// What each context filter keeps: `All` every item, `Absent` the items
/// without left context, `Present` the items with left context.
pub proof fn law_filter_meaning(item: AjimeeItem)
    ensures
        selects(ContextFilter::All, item),
        selects(ContextFilter::Absent, item) <==> item.context_text@.len() == 0,
        selects(ContextFilter::Present, item) <==> item.context_text@.len() > 0,
{
}

proof fn lemma_selected_upto(items: Seq<AjimeeItem>, filter: ContextFilter, limit: nat, j: int)
    requires
        0 <= j <= items.len(),
        items.len() <= usize::MAX,
    ensures
        selected_upto(items, filter, limit, j).len() <= limit,
        forall|t: int|
            0 <= t < selected_upto(items, filter, limit, j).len() ==> #[trigger] selected_upto(items, filter, limit, j)[t]
                < j && selects(filter, items[selected_upto(items, filter, limit, j)[t] as int]),
        forall|a: int, b: int|
            0 <= a < b < selected_upto(items, filter, limit, j).len() ==> #[trigger] selected_upto(
                items,
                filter,
                limit,
                j,
            )[a] < #[trigger] selected_upto(items, filter, limit, j)[b],
        selected_upto(items, filter, limit, j).len() < limit ==> forall|k: int|
            0 <= k < j && #[trigger] selects(filter, items[k]) ==> selected_upto(items, filter, limit, j).contains(
                k as usize,
            ),
        forall|k: int|
            0 <= k < j && selected_upto(items, filter, limit, j).len() > 0 && k < selected_upto(
                items,
                filter,
                limit,
                j,
            ).last() && #[trigger] selects(filter, items[k]) ==> selected_upto(items, filter, limit, j).contains(
                k as usize,
            ),
    decreases j,
{
    if j > 0 {
        lemma_selected_upto(items, filter, limit, j - 1);
        let before = selected_upto(items, filter, limit, j - 1);
        let r = selected_upto(items, filter, limit, j);
        if selects(filter, items[j - 1]) && before.len() < limit {
            assert(r == before.push((j - 1) as usize));
            assert forall|t: int| 0 <= t < before.len() implies r[t] == before[t] by {}
            assert(r[r.len() - 1] == (j - 1) as usize);
            assert forall|k: int| 0 <= k < j && #[trigger] selects(filter, items[k]) implies r.contains(k as usize) by {
                if k < j - 1 {
                    let t = choose|t: int| 0 <= t < before.len() && before[t] == k as usize;
                    assert(r[t] == k as usize);
                } else {
                    assert(r[r.len() - 1] == k as usize);
                }
            }
        } else {
            assert forall|k: int|
                0 <= k < j && r.len() > 0 && k < r.last() && #[trigger] selects(filter, items[k]) implies r.contains(
                k as usize,
            ) by {
                assert(r.last() < j - 1);
            }
        }
    }
}

/// The selection is the first matching items, at most `limit` of them:
/// every index picked is of an item the filter keeps, the indices increase,
/// no kept item before the last one picked is left out, and fewer than
/// `limit` are picked only when every kept item is picked.
pub proof fn law_selection_is_first_matching(items: Seq<AjimeeItem>, filter: ContextFilter, limit: Option<usize>)
    requires
        items.len() <= usize::MAX,
    ensures
        ({
            let r = selected_upto(items, filter, limit_of(limit), items.len() as int);
            &&& r.len() <= limit_of(limit)
            &&& limit is None ==> limit_of(limit) == usize::MAX
            &&& limit matches Some(n) ==> limit_of(limit) == n
            &&& forall|t: int| 0 <= t < r.len() ==> #[trigger] r[t] < items.len() && selects(filter, items[r[t] as int])
            &&& forall|a: int, b: int| 0 <= a < b < r.len() ==> #[trigger] r[a] < #[trigger] r[b]
            &&& r.len() < limit_of(limit) ==> forall|k: int|
                0 <= k < items.len() && #[trigger] selects(filter, items[k]) ==> r.contains(k as usize)
            &&& forall|k: int|
                0 <= k < items.len() && r.len() > 0 && k < r.last() && #[trigger] selects(filter, items[k])
                    ==> r.contains(k as usize)
        }),
{
    lemma_selected_upto(items, filter, limit_of(limit), items.len() as int);
}

/// The indices, in order, of the items that `filter` selects, at most
/// `limit` of them (no limit: all).
pub fn select_items(items: &Vec<AjimeeItem>, filter: ContextFilter, limit: Option<usize>) -> (r: Vec<usize>)
    ensures
        r@ == selected_upto(items@, filter, limit_of(limit), items@.len() as int),
        r@.len() <= limit_of(limit),
        forall|t: int| 0 <= t < r@.len() ==> #[trigger] r@[t] < items@.len() && selects(filter, items@[r@[t] as int]),
        forall|a: int, b: int| 0 <= a < b < r@.len() ==> #[trigger] r@[a] < #[trigger] r@[b],
        r@.len() < limit_of(limit) ==> forall|k: int|
            0 <= k < items@.len() && #[trigger] selects(filter, items@[k]) ==> r@.contains(k as usize),
        forall|k: int|
            0 <= k < items@.len() && r@.len() > 0 && k < r@.last() && #[trigger] selects(filter, items@[k])
                ==> r@.contains(k as usize),
{
    proof {
        law_selection_is_first_matching(items@, filter, limit);
    }
    let cap = match limit {
        Some(n) => n,
        None => usize::MAX,
    };
    let mut selected: Vec<usize> = Vec::new();
    for j in 0..items.len()
        invariant
            cap == limit_of(limit),
            selected@ == selected_upto(items@, filter, limit_of(limit), j as int),
            selected@.len() <= j,
    {
        if selected.len() < cap && filter.includes(&items[j]) {
            selected.push(j);
        }
    }
    selected
}

/// `s` is among `expected`.
pub open spec fn is_expected(expected: Seq<String>, s: Seq<char>) -> bool {
    exists|i: int| 0 <= i < expected.len() && (#[trigger] expected[i])@ == s
}

/// The position of the first candidate that is among the accepted outputs.
pub open spec fn first_match(candidates: Seq<String>, expected: Seq<String>, i: int) -> Option<usize>
    decreases candidates.len() - i,
{
    if i < 0 || i >= candidates.len() {
        None
    } else if is_expected(expected, candidates[i]@) {
        Some(i as usize)
    } else {
        first_match(candidates, expected, i + 1)
    }
}

proof fn lemma_first_match(candidates: Seq<String>, expected: Seq<String>, i: int)
    requires
        0 <= i,
        candidates.len() <= usize::MAX,
    ensures
        first_match(candidates, expected, i) matches Some(k) ==> i <= k < candidates.len() && is_expected(
            expected,
            candidates[k as int]@,
        ) && forall|t: int| i <= t < k ==> !#[trigger] is_expected(expected, candidates[t]@),
        first_match(candidates, expected, i) is None ==> forall|t: int|
            i <= t < candidates.len() ==> !#[trigger] is_expected(expected, candidates[t]@),
    decreases candidates.len() - i,
{
    if i < candidates.len() {
        lemma_first_match(candidates, expected, i + 1);
    }
}

/// `rank` is the position of the first of `candidates` equal to any of the
/// accepted outputs `expected` (in whatever order they are given), or
/// nothing when none of them is.
pub open spec fn first_accepted(rank: Option<usize>, candidates: Seq<String>, expected: Seq<String>) -> bool {
    match rank {
        Some(k) => {
            &&& k < candidates.len()
            &&& exists|j: int| 0 <= j < expected.len() && (#[trigger] expected[j])@ == candidates[k as int]@
            &&& forall|t: int, j: int|
                0 <= t < k && 0 <= j < expected.len() ==> (#[trigger] expected[j])@ != (#[trigger] candidates[t])@
        },
        None => forall|t: int, j: int|
            0 <= t < candidates.len() && 0 <= j < expected.len() ==> (#[trigger] expected[j])@ != (
            #[trigger] candidates[t])@,
    }
}

/// The rank of a list of candidates is the position of the first candidate
/// equal to any of the accepted outputs: a rank `k` names an accepted
/// candidate with none accepted before it, and no rank means no candidate
/// is accepted.
pub proof fn law_rank_is_first_accepted(candidates: Seq<String>, expected: Seq<String>)
    requires
        candidates.len() <= usize::MAX,
    ensures
        first_accepted(first_match(candidates, expected, 0), candidates, expected),
{
    lemma_first_match(candidates, expected, 0);
    match first_match(candidates, expected, 0) {
        Some(k) => {
            assert forall|t: int, j: int| 0 <= t < k && 0 <= j < expected.len() implies (
            #[trigger] expected[j])@ != (#[trigger] candidates[t])@ by {
                assert(!is_expected(expected, candidates[t]@));
            }
        },
        None => {
            assert forall|t: int, j: int| 0 <= t < candidates.len() && 0 <= j < expected.len() implies (
            #[trigger] expected[j])@ != (#[trigger] candidates[t])@ by {
                assert(!is_expected(expected, candidates[t]@));
            }
        },
    }
}

/// The position of the first candidate that is among the accepted outputs.
pub fn match_rank(candidates: &Vec<String>, expected: &Vec<String>) -> (r: Option<usize>)
    ensures
        r == first_match(candidates@, expected@, 0),
        first_accepted(r, candidates@, expected@),
{
    proof {
        assert(candidates@.len() == candidates.len());
        law_rank_is_first_accepted(candidates@, expected@);
    }
    let mut i: usize = 0;
    while i < candidates.len()
        invariant
            i <= candidates@.len(),
            first_match(candidates@, expected@, 0) == first_match(candidates@, expected@, i as int),
            first_accepted(first_match(candidates@, expected@, 0), candidates@, expected@),
        decreases candidates.len() - i,
    {
        let mut found = false;
        for k in 0..expected.len()
            invariant
                i < candidates@.len(),
                found == exists|t: int| 0 <= t < k && (#[trigger] expected@[t])@ == candidates@[i as int]@,
        {
            if !found && expected[k] == candidates[i] {
                found = true;
            }
        }
        if found {
            return Some(i);
        }
        i = i + 1;
    }
    None
}


/// A text is at distance zero from itself: an identical hypothesis has no
/// character errors.
pub proof fn law_identical_texts_have_no_errors(a: Seq<char>)
    ensures
        edit_distance_of(a, a) == 0,
    decreases a.len(),
{
    if a.len() > 0 {
        law_identical_texts_have_no_errors(a.drop_last());
    }
}


/// The surfaces of the first `top_k` candidates, in order.
pub fn top_surfaces(candidates: Vec<Candidate>, top_k: usize) -> (r: Vec<String>)
    ensures
        r@.len() == if top_k < candidates@.len() { top_k as int } else { candidates@.len() as int },
        forall|i: int| 0 <= i < r@.len() ==> (#[trigger] r@[i])@ == candidates@[i].surface@,
{
    let mut r: Vec<String> = Vec::new();
    let mut i: usize = 0;
    while i < candidates.len() && i < top_k
        invariant
            i <= candidates@.len(),
            i <= top_k,
            r@.len() == i,
            forall|t: int| 0 <= t < i ==> (#[trigger] r@[t])@ == candidates@[t].surface@,
        decreases candidates.len() - i,
    {
        r.push(candidates[i].surface.clone());
        i = i + 1;
    }
    r
}

/// Why a run of the evaluation cannot be counted: no item was selected, or
/// the selected item at this position accepts no output.
#[derive(Clone, Copy, Debug, PartialEq, Eq)]
pub enum TallyError {
    NoItems,
    NoExpectedOutput(usize),
}

/// What a run of the evaluation counts, item by item in selection order:
/// the rank of the first accepted candidate of each item, how many items
/// were right at the first candidate and within the candidates shown, and
/// the positions of the first unmatched items kept for the report.
#[derive(Clone, Debug, PartialEq, Eq)]
pub struct Tally {
    pub ranks: Vec<Option<usize>>,
    pub correct_at_1: usize,
    pub correct_at_k: usize,
    pub failures: Vec<usize>,
}

/// The position of the first item, from `i` on, that accepts no output.
pub open spec fn first_empty(expected: Seq<Vec<String>>, i: int) -> Option<usize>
    decreases expected.len() - i,
{
    if i < 0 || i >= expected.len() {
        None
    } else if expected[i]@.len() == 0 {
        Some(i as usize)
    } else {
        first_empty(expected, i + 1)
    }
}

/// The error a run is refused with, if it is.
pub open spec fn tally_error(expected: Seq<Vec<String>>) -> Option<TallyError> {
    if expected.len() == 0 {
        Some(TallyError::NoItems)
    } else {
        match first_empty(expected, 0) {
            Some(i) => Some(TallyError::NoExpectedOutput(i)),
            None => None,
        }
    }
}

/// The rank of each item: where its first accepted candidate stands.
pub open spec fn ranks_of(candidates: Seq<Vec<String>>, expected: Seq<Vec<String>>) -> Seq<Option<usize>> {
    Seq::new(candidates.len(), |i: int| first_match(candidates[i]@, expected[i]@, 0))
}

/// How many items are right at the first candidate.
pub open spec fn count_first(ranks: Seq<Option<usize>>) -> nat
    decreases ranks.len(),
{
    if ranks.len() == 0 {
        0
    } else {
        count_first(ranks.drop_last()) + if ranks.last() == Some(0usize) { 1nat } else { 0nat }
    }
}

/// How many items have an accepted candidate at all.
pub open spec fn count_found(ranks: Seq<Option<usize>>) -> nat
    decreases ranks.len(),
{
    if ranks.len() == 0 {
        0
    } else {
        count_found(ranks.drop_last()) + if ranks.last() is Some { 1nat } else { 0nat }
    }
}

/// The positions, among the first `j`, of the first `cap` items without an
/// accepted candidate.
pub open spec fn misses_upto(ranks: Seq<Option<usize>>, cap: nat, j: int) -> Seq<usize>
    decreases j,
{
    if j <= 0 {
        Seq::empty()
    } else {
        let before = misses_upto(ranks, cap, j - 1);
        if before.len() < cap && ranks[j - 1] is None {
            before.push((j - 1) as usize)
        } else {
            before
        }
    }
}

proof fn lemma_counts_bounded(ranks: Seq<Option<usize>>)
    ensures
        count_first(ranks) <= count_found(ranks) <= ranks.len(),
    decreases ranks.len(),
{
    if ranks.len() > 0 {
        lemma_counts_bounded(ranks.drop_last());
    }
}

/// Each item's rank is the position of its first candidate equal to any of
/// its accepted outputs; no rank means none of its candidates is accepted.
pub proof fn law_ranks_are_first_accepted(candidates: Seq<Vec<String>>, expected: Seq<Vec<String>>)
    requires
        candidates.len() == expected.len(),
        forall|i: int| 0 <= i < candidates.len() ==> (#[trigger] candidates[i])@.len() <= usize::MAX,
    ensures
        ranks_of(candidates, expected).len() == candidates.len(),
        forall|i: int|
            0 <= i < candidates.len() ==> first_accepted(
                #[trigger] ranks_of(candidates, expected)[i],
                candidates[i]@,
                expected[i]@,
            ),
{
    assert forall|i: int| 0 <= i < candidates.len() implies first_accepted(
        #[trigger] ranks_of(candidates, expected)[i],
        candidates[i]@,
        expected[i]@,
    ) by {
        law_rank_is_first_accepted(candidates[i]@, expected[i]@);
    }
}

/// The count of items right at the first candidate is how often rank 0
/// occurs; the count of items with an accepted candidate is how many ranks
/// are not empty.
pub proof fn law_counts_count_ranks(ranks: Seq<Option<usize>>)
    ensures
        count_first(ranks) == ranks.to_multiset().count(Some(0usize)),
        count_found(ranks) + ranks.to_multiset().count(None) == ranks.len(),
    decreases ranks.len(),
{
    broadcast use vstd::seq_lib::group_to_multiset_ensures;

    if ranks.len() == 0 {
        assert(ranks.to_multiset() =~= vstd::multiset::Multiset::empty());
    } else {
        law_counts_count_ranks(ranks.drop_last());
        assert(ranks =~= ranks.drop_last().push(ranks.last()));
    }
}

proof fn lemma_misses_upto(ranks: Seq<Option<usize>>, cap: nat, j: int)
    requires
        0 <= j <= ranks.len(),
        ranks.len() <= usize::MAX,
    ensures
        misses_upto(ranks, cap, j).len() <= cap,
        forall|t: int|
            0 <= t < misses_upto(ranks, cap, j).len() ==> #[trigger] misses_upto(ranks, cap, j)[t] < j && ranks[misses_upto(
                ranks,
                cap,
                j,
            )[t] as int] is None,
        forall|a: int, b: int|
            0 <= a < b < misses_upto(ranks, cap, j).len() ==> #[trigger] misses_upto(ranks, cap, j)[a]
                < #[trigger] misses_upto(ranks, cap, j)[b],
        misses_upto(ranks, cap, j).len() < cap ==> forall|k: int|
            0 <= k < j && #[trigger] ranks[k] is None ==> misses_upto(ranks, cap, j).contains(k as usize),
        forall|k: int|
            0 <= k < j && misses_upto(ranks, cap, j).len() > 0 && k < misses_upto(ranks, cap, j).last()
                && #[trigger] ranks[k] is None ==> misses_upto(ranks, cap, j).contains(k as usize),
    decreases j,
{
    if j > 0 {
        lemma_misses_upto(ranks, cap, j - 1);
        let before = misses_upto(ranks, cap, j - 1);
        let r = misses_upto(ranks, cap, j);
        if before.len() < cap && ranks[j - 1] is None {
            assert(r == before.push((j - 1) as usize));
            assert forall|t: int| 0 <= t < before.len() implies r[t] == before[t] by {}
            assert(r[r.len() - 1] == (j - 1) as usize);
            assert forall|k: int| 0 <= k < j && #[trigger] ranks[k] is None implies r.contains(k as usize) by {
                if k < j - 1 {
                    let t = choose|t: int| 0 <= t < before.len() && before[t] == k as usize;
                    assert(r[t] == k as usize);
                } else {
                    assert(r[r.len() - 1] == k as usize);
                }
            }
        } else {
            assert forall|k: int|
                0 <= k < j && r.len() > 0 && k < r.last() && #[trigger] ranks[k] is None implies r.contains(
                k as usize,
            ) by {
                assert(r.last() < j - 1);
            }
        }
    }
}

/// The failures kept are the first unmatched items, at most `cap` of them:
/// each kept position has no rank, the positions increase, no unmatched
/// item before the last kept one is left out, and fewer than `cap` are
/// kept only when every unmatched item is kept.
pub proof fn law_failures_are_first_unmatched(ranks: Seq<Option<usize>>, cap: nat)
    requires
        ranks.len() <= usize::MAX,
    ensures
        ({
            let f = misses_upto(ranks, cap, ranks.len() as int);
            &&& f.len() <= cap
            &&& forall|t: int| 0 <= t < f.len() ==> #[trigger] f[t] < ranks.len() && ranks[f[t] as int] is None
            &&& forall|a: int, b: int| 0 <= a < b < f.len() ==> #[trigger] f[a] < #[trigger] f[b]
            &&& f.len() < cap ==> forall|k: int| 0 <= k < ranks.len() && #[trigger] ranks[k] is None ==> f.contains(k as usize)
            &&& forall|k: int|
                0 <= k < ranks.len() && f.len() > 0 && k < f.last() && #[trigger] ranks[k] is None ==> f.contains(k as usize)
        }),
{
    lemma_misses_upto(ranks, cap, ranks.len() as int);
}

proof fn lemma_first_empty(expected: Seq<Vec<String>>, i: int)
    requires
        0 <= i,
        expected.len() <= usize::MAX,
    ensures
        first_empty(expected, i) matches Some(k) ==> i <= k < expected.len() && expected[k as int]@.len() == 0
            && forall|t: int| i <= t < k ==> (#[trigger] expected[t])@.len() > 0,
        first_empty(expected, i) is None ==> forall|t: int| i <= t < expected.len() ==> (#[trigger] expected[t])@.len() > 0,
    decreases expected.len() - i,
{
    if i < expected.len() {
        lemma_first_empty(expected, i + 1);
    }
}

/// A run is refused exactly when no item was selected, or else naming the
/// first item that accepts no output; a run with items that all accept
/// some output is counted.
pub proof fn law_tally_error_meaning(expected: Seq<Vec<String>>)
    requires
        expected.len() <= usize::MAX,
    ensures
        tally_error(expected) == Some(TallyError::NoItems) <==> expected.len() == 0,
        tally_error(expected) matches Some(TallyError::NoExpectedOutput(k)) ==> {
            &&& k < expected.len()
            &&& expected[k as int]@.len() == 0
            &&& forall|t: int| 0 <= t < k ==> (#[trigger] expected[t])@.len() > 0
        },
        tally_error(expected) is None <==> expected.len() > 0 && forall|t: int|
            0 <= t < expected.len() ==> (#[trigger] expected[t])@.len() > 0,
{
    lemma_first_empty(expected, 0);
}

/// Counts a run: for each selected item, its accepted outputs and the
/// candidates shown for it. Refused when no item was selected, or, naming
/// the first such item, when an item accepts no output.
pub fn tally(expected: &Vec<Vec<String>>, candidates: &Vec<Vec<String>>, max_failures: usize) -> (r: Result<
    Tally,
    TallyError,
>)
    requires
        candidates@.len() == expected@.len(),
    ensures
        r is Err <==> tally_error(expected@) is Some,
        r matches Err(e) ==> tally_error(expected@) == Some(e),
        r matches Ok(t) ==> {
            &&& t.ranks@ == ranks_of(candidates@, expected@)
            &&& t.correct_at_1 == count_first(t.ranks@)
            &&& t.correct_at_k == count_found(t.ranks@)
            &&& t.failures@ == misses_upto(t.ranks@, max_failures as nat, t.ranks@.len() as int)
            &&& t.ranks@.len() == expected@.len()
            &&& forall|i: int|
                0 <= i < t.ranks@.len() ==> first_accepted(#[trigger] t.ranks@[i], candidates@[i]@, expected@[i]@)
            &&& t.correct_at_1 == t.ranks@.to_multiset().count(Some(0usize))
            &&& t.correct_at_k + t.ranks@.to_multiset().count(None) == t.ranks@.len()
        },
{
    let n = expected.len();
    if n == 0 {
        return Err(TallyError::NoItems);
    }
    let mut e: usize = 0;
    while e < n
        invariant
            n == expected@.len(),
            e <= n,
            first_empty(expected@, 0) == first_empty(expected@, e as int),
        decreases n - e,
    {
        if expected[e].len() == 0 {
            return Err(TallyError::NoExpectedOutput(e));
        }
        e = e + 1;
    }
    let ghost target = ranks_of(candidates@, expected@);
    let mut ranks: Vec<Option<usize>> = Vec::new();
    let mut correct_at_1: usize = 0;
    let mut correct_at_k: usize = 0;
    let mut failures: Vec<usize> = Vec::new();
    let mut i: usize = 0;
    while i < n
        invariant
            n == expected@.len(),
            n == candidates@.len(),
            target == ranks_of(candidates@, expected@),
            i <= n,
            ranks@ == target.take(i as int),
            correct_at_1 == count_first(ranks@),
            correct_at_k == count_found(ranks@),
            failures@ == misses_upto(ranks@, max_failures as nat, i as int),
        decreases n - i,
    {
        let rank = match_rank(&candidates[i], &expected[i]);
        proof {
            lemma_counts_bounded(ranks@);
        }
        let ghost before = ranks@;
        ranks.push(rank);
        proof {
            assert(ranks@ =~= target.take(i + 1));
            assert(ranks@.drop_last() =~= before);
            assert forall|j: int| 0 <= j <= i implies misses_upto(ranks@, max_failures as nat, j)
                == misses_upto(before, max_failures as nat, j) by {
                lemma_misses_prefix(ranks@, before, max_failures as nat, j);
            }
        }
        if rank == Some(0usize) {
            correct_at_1 = correct_at_1 + 1;
        }
        if rank.is_some() {
            correct_at_k = correct_at_k + 1;
        } else if failures.len() < max_failures {
            failures.push(i);
        }
        i = i + 1;
    }
    proof {
        assert(target.take(n as int) =~= target);
        assert forall|t: int| 0 <= t < candidates@.len() implies (#[trigger] candidates@[t])@.len() <= usize::MAX by {
            assert(candidates@[t]@.len() == candidates@[t].len());
        }
        law_ranks_are_first_accepted(candidates@, expected@);
        law_counts_count_ranks(ranks@);
    }
    Ok(Tally { ranks, correct_at_1, correct_at_k, failures })
}

proof fn lemma_misses_prefix(a: Seq<Option<usize>>, b: Seq<Option<usize>>, cap: nat, j: int)
    requires
        0 <= j <= b.len() <= a.len(),
        forall|t: int| 0 <= t < b.len() ==> a[t] == b[t],
    ensures
        misses_upto(a, cap, j) == misses_upto(b, cap, j),
    decreases j,
{
    if j > 0 {
        lemma_misses_prefix(a, b, cap, j - 1);
    }
}

} // verus!
