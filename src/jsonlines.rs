//! The JSON document formats. A JSON-lines text holds one JSON object per line,
//! each a document; a JSON text holds one object, one document. A document's text
//! is the configured string members, concatenated.
use vstd::prelude::*;
use vstd::string::StringExecFns;
use crate::doc::{Cfg, Document};
use crate::tokenizer::{lower_of, lowercase};

verus! {

/// The lines of a text, without their line endings.
pub uninterp spec fn lines_of(s: Seq<char>) -> Seq<Seq<char>>;

/// serde_json accepts the text as a JSON value.
pub uninterp spec fn parses_as_json(s: Seq<char>) -> bool;

/// The member named `key` of the JSON object that the text holds, when serde_json
/// accepts the text and that member is a string.
pub uninterp spec fn string_member_of(text: Seq<char>, key: Seq<char>) -> Option<Seq<char>>;

/// Relies on `str::lines`: the lines of the text, split at `\n` or `\r\n`, without
/// them; they depend on the characters alone.
#[verifier::external_body]
fn text_lines(s: &str) -> (r: Vec<String>)
    ensures
        r@.map_values(|l: String| l@) == lines_of(s@),
{
    s.lines().map(|l| l.to_string()).collect()
}

/// Relies on `serde_json::from_str` into a `Value`: whether it succeeds depends on
/// the characters alone.
#[verifier::external_body]
fn accepts_json(s: &str) -> (r: bool)
    ensures
        r == parses_as_json(s@),
{
    serde_json::from_str::<serde_json::Value>(s).is_ok()
}

/// Relies on `serde_json::from_str` into a `Value` and `Value::get`: the string
/// member `key` of the object the text holds, which depends on the text and key alone.
#[verifier::external_body]
fn string_member(text: &str, key: &str) -> (r: Option<String>)
    ensures
        match r {
            Some(v) => string_member_of(text@, key@) == Some(v@),
            None => string_member_of(text@, key@) is None,
        },
{
    match serde_json::from_str::<serde_json::Value>(text) {
        Ok(value) => match value.get(key) {
            Some(serde_json::Value::String(s)) => Some(s.clone()),
            _ => None,
        },
        Err(_) => None,
    }
}

/// The character of a decimal digit.
pub open spec fn digit_char(d: nat) -> char {
    if d == 0 {
        '0'
    } else if d == 1 {
        '1'
    } else if d == 2 {
        '2'
    } else if d == 3 {
        '3'
    } else if d == 4 {
        '4'
    } else if d == 5 {
        '5'
    } else if d == 6 {
        '6'
    } else if d == 7 {
        '7'
    } else if d == 8 {
        '8'
    } else {
        '9'
    }
}

/// Decimal digits of `n`, most significant first, without leading zeros.
pub open spec fn decimal(n: nat) -> Seq<char>
    decreases n,
{
    if n < 10 {
        seq![digit_char(n)]
    } else {
        decimal(n / 10).push(digit_char(n % 10))
    }
}

/// The one-character string of a decimal digit.
fn digit_str(d: usize) -> (r: &'static str)
    requires
        d < 10,
    ensures
        r@ == seq![digit_char(d as nat)],
{
    proof {
        reveal_strlit("0");
        reveal_strlit("1");
        reveal_strlit("2");
        reveal_strlit("3");
        reveal_strlit("4");
        reveal_strlit("5");
        reveal_strlit("6");
        reveal_strlit("7");
        reveal_strlit("8");
        reveal_strlit("9");
    }
    let r = if d == 0 {
        "0"
    } else if d == 1 {
        "1"
    } else if d == 2 {
        "2"
    } else if d == 3 {
        "3"
    } else if d == 4 {
        "4"
    } else if d == 5 {
        "5"
    } else if d == 6 {
        "6"
    } else if d == 7 {
        "7"
    } else if d == 8 {
        "8"
    } else {
        "9"
    };
    assert(r@ =~= seq![digit_char(d as nat)]);
    r
}

/// Appends the decimal digits of `n`.
fn append_decimal(s: &mut String, n: usize)
    ensures
        final(s)@ == old(s)@ + decimal(n as nat),
    decreases n,
{
    if n >= 10 {
        append_decimal(s, n / 10);
    }
    let ghost mid = s@;
    s.append(digit_str(n % 10));
    assert(s@ =~= old(s)@ + decimal(n as nat));
}

/// A line's name: the path, a colon, and the line's number.
fn numbered(path: &str, n: usize) -> (r: String)
    ensures
        r@ == path@ + seq![':'] + decimal(n as nat),
{
    let mut s = String::from_str(path);
    proof {
        reveal_strlit(":");
    }
    s.append(":");
    append_decimal(&mut s, n);
    assert(s@ =~= path@ + seq![':'] + decimal(n as nat));
    s
}

/// The field names as text.
pub open spec fn field_views(fields: Seq<String>) -> Seq<Seq<char>> {
    fields.map_values(|f: String| f@)
}

/// A document's text from a JSON text: the string members named by the fields in
/// lower case, concatenated in the order of the fields; a missing member adds nothing.
pub open spec fn content_of(text: Seq<char>, fields: Seq<Seq<char>>) -> Seq<char>
    decreases fields.len(),
{
    if fields.len() == 0 {
        Seq::empty()
    } else {
        content_of(text, fields.drop_last()) + match string_member_of(text, lower_of(fields.last())) {
            Some(v) => v,
            None => Seq::empty(),
        }
    }
}

/// The text of the document that a JSON text holds.
pub fn json_content(text: &str, cfg: &Cfg) -> (r: String)
    ensures
        r@ == content_of(text@, field_views(cfg.fields())),
{
    let fields = cfg.get_fields();
    let ghost fv = field_views(fields@);
    let mut content = String::new();
    let mut i: usize = 0;
    while i < fields.len()
        invariant
            fv == field_views(fields@),
            i <= fields@.len(),
            content@ == content_of(text@, fv.subrange(0, i as int)),
        decreases fields@.len() - i,
    {
        assert(fv.subrange(0, i + 1).drop_last() == fv.subrange(0, i as int));
        assert(fv.subrange(0, i + 1).last() == fields@[i as int]@);
        let key = lowercase(fields[i].as_str());
        match string_member(text, key.as_str()) {
            Some(s) => {
                content.append(s.as_str());
            },
            None => {},
        }
        assert(content@ =~= content_of(text@, fv.subrange(0, i + 1)));
        i = i + 1;
    }
    assert(fv.subrange(0, i as int) == fv);
    content
}

/// The one-based numbers of the lines that serde_json accepts.
pub open spec fn parsed_line_numbers(ls: Seq<Seq<char>>) -> Seq<nat>
    decreases ls.len(),
{
    if ls.len() == 0 {
        Seq::empty()
    } else if parses_as_json(ls.last()) {
        parsed_line_numbers(ls.drop_last()).push(ls.len())
    } else {
        parsed_line_numbers(ls.drop_last())
    }
}

/// The line numbers are within the lines.
proof fn lemma_line_numbers(ls: Seq<Seq<char>>)
    ensures
        forall|k: int| 0 <= k < parsed_line_numbers(ls).len() ==> 1 <= #[trigger] parsed_line_numbers(ls)[k] <= ls.len(),
    decreases ls.len(),
{
    if ls.len() > 0 {
        let prev = ls.drop_last();
        lemma_line_numbers(prev);
        let nums = parsed_line_numbers(ls);
        let pn = parsed_line_numbers(prev);
        assert forall|k: int| 0 <= k < nums.len() implies 1 <= #[trigger] nums[k] <= ls.len() by {
            if k < pn.len() {
                assert(nums[k] == pn[k]);
            }
        }
    }
}

/// The documents of a JSON-lines text: one for each line that serde_json accepts,
/// named by the path and the line's number; other lines are skipped.
pub fn parse_jsonlines(path: &str, text: &str, cfg: &Cfg) -> (r: Vec<Document>)
    ensures
        r@.len() == parsed_line_numbers(lines_of(text@)).len(),
        forall|k: int| 0 <= k < r@.len() ==> (#[trigger] r@[k]).path() == path@ + seq![':']
            + decimal(parsed_line_numbers(lines_of(text@))[k]),
        forall|k: int| 0 <= k < r@.len() ==> (#[trigger] r@[k]).content() == content_of(
            lines_of(text@)[parsed_line_numbers(lines_of(text@))[k] - 1],
            field_views(cfg.fields()),
        ),
{
    let lines = text_lines(text);
    let ghost ls = lines@.map_values(|l: String| l@);
    let ghost fv = field_views(cfg.fields());
    let mut docs: Vec<Document> = Vec::new();
    let mut n: usize = 0;
    while n < lines.len()
        invariant
            ls == lines@.map_values(|l: String| l@),
            ls == lines_of(text@),
            fv == field_views(cfg.fields()),
            n <= lines@.len(),
            docs@.len() == parsed_line_numbers(ls.subrange(0, n as int)).len(),
            forall|k: int| 0 <= k < docs@.len() ==> (#[trigger] docs@[k]).path() == path@ + seq![':']
                + decimal(parsed_line_numbers(ls.subrange(0, n as int))[k]),
            forall|k: int| 0 <= k < docs@.len() ==> (#[trigger] docs@[k]).content() == content_of(
                ls[parsed_line_numbers(ls.subrange(0, n as int))[k] - 1],
                fv,
            ),
        decreases lines@.len() - n,
    {
        let ghost prev = ls.subrange(0, n as int);
        let ghost next = ls.subrange(0, n + 1);
        assert(next.drop_last() == prev);
        assert(next.last() == lines@[n as int]@);
        proof {
            lemma_line_numbers(prev);
        }
        if accepts_json(lines[n].as_str()) {
            let content = json_content(lines[n].as_str(), cfg);
            let name = numbered(path, n + 1);
            docs.push(Document::new(content, name));
            assert forall|k: int| 0 <= k < docs@.len() implies {
                &&& (#[trigger] docs@[k]).path() == path@ + seq![':'] + decimal(parsed_line_numbers(next)[k])
                &&& docs@[k].content() == content_of(ls[parsed_line_numbers(next)[k] - 1], fv)
            } by {
                if k < docs@.len() - 1 {
                    assert(parsed_line_numbers(next)[k] == parsed_line_numbers(prev)[k]);
                }
            }
        }
        n = n + 1;
    }
    assert(ls.subrange(0, n as int) == ls);
    docs
}

/// The document of a JSON text: one, named by the path, when serde_json accepts
/// the text; none otherwise.
pub fn parse_json(path: &str, text: &str, cfg: &Cfg) -> (r: Vec<Document>)
    ensures
        r@.len() == if parses_as_json(text@) { 1int } else { 0int },
        r@.len() == 1 ==> r@[0].path() == path@ && r@[0].content() == content_of(text@, field_views(cfg.fields())),
{
    let mut docs: Vec<Document> = Vec::new();
    if accepts_json(text) {
        docs.push(Document::new(json_content(text, cfg), String::from_str(path)));
    }
    docs
}

} // verus!
