//! The markup document that describes one synthesis request.

use vstd::prelude::*;
use vstd::string::StringExecFns;

verus! {

pub open spec fn ent_lt() -> Seq<char> {
    seq!['&', 'l', 't', ';']
}

pub open spec fn ent_gt() -> Seq<char> {
    seq!['&', 'g', 't', ';']
}

pub open spec fn ent_amp() -> Seq<char> {
    seq!['&', 'a', 'm', 'p', ';']
}

pub open spec fn ent_quot() -> Seq<char> {
    seq!['&', 'q', 'u', 'o', 't', ';']
}

pub open spec fn ent_apos() -> Seq<char> {
    seq!['&', 'a', 'p', 'o', 's', ';']
}

pub open spec fn ent_lf() -> Seq<char> {
    seq!['&', '#', 'x', 'A', ';']
}

pub open spec fn ent_cr() -> Seq<char> {
    seq!['&', '#', 'x', 'D', ';']
}

/// How one character is written inside an attribute value.
pub open spec fn attr_char(c: char) -> Seq<char> {
    if c == '<' {
        ent_lt()
    } else if c == '>' {
        ent_gt()
    } else if c == '"' {
        ent_quot()
    } else if c == '\'' {
        ent_apos()
    } else if c == '&' {
        ent_amp()
    } else if c == '\n' {
        ent_lf()
    } else if c == '\r' {
        ent_cr()
    } else {
        seq![c]
    }
}

/// How one character is written as element content.
pub open spec fn text_char(c: char) -> Seq<char> {
    if c == '<' {
        ent_lt()
    } else if c == '>' {
        ent_gt()
    } else if c == '&' {
        ent_amp()
    } else {
        seq![c]
    }
}

/// `s` escaped as an attribute value.
pub open spec fn escape_attr(s: Seq<char>) -> Seq<char>
    decreases s.len(),
{
    if s.len() == 0 {
        Seq::empty()
    } else {
        attr_char(s[0]) + escape_attr(s.skip(1))
    }
}

/// `s` escaped as element content.
pub open spec fn escape_text(s: Seq<char>) -> Seq<char>
    decreases s.len(),
{
    if s.len() == 0 {
        Seq::empty()
    } else {
        text_char(s[0]) + escape_text(s.skip(1))
    }
}

pub open spec fn starts_with(s: Seq<char>, p: Seq<char>) -> bool {
    p.len() <= s.len() && s.subrange(0, p.len() as int) == p
}

/// Replaces each entity reference by the character it stands for.
pub open spec fn unescape(s: Seq<char>) -> Seq<char>
    decreases s.len(),
{
    if s.len() == 0 {
        Seq::empty()
    } else if starts_with(s, ent_lt()) {
        seq!['<'] + unescape(s.skip(4))
    } else if starts_with(s, ent_gt()) {
        seq!['>'] + unescape(s.skip(4))
    } else if starts_with(s, ent_amp()) {
        seq!['&'] + unescape(s.skip(5))
    } else if starts_with(s, ent_quot()) {
        seq!['"'] + unescape(s.skip(6))
    } else if starts_with(s, ent_apos()) {
        seq!['\''] + unescape(s.skip(6))
    } else if starts_with(s, ent_lf()) {
        seq!['\n'] + unescape(s.skip(5))
    } else if starts_with(s, ent_cr()) {
        seq!['\r'] + unescape(s.skip(5))
    } else {
        seq![s[0]] + unescape(s.skip(1))
    }
}

/// Relies on xml::escape::escape_str_attribute: each of `<`, `>`, `"`, `'`,
/// `&`, LF and CR replaced by its entity, every other character kept.
#[verifier::external_body]
fn escape_attribute_str(s: &str) -> (r: String)
    ensures
        r@ == escape_attr(s@),
{
    xml::escape::escape_str_attribute(s).into_owned()
}

/// Relies on xml::escape::escape_str_pcdata: each of `<`, `>` and `&`
/// replaced by its entity, every other character kept.
#[verifier::external_body]
fn escape_pcdata_str(s: &str) -> (r: String)
    ensures
        r@ == escape_text(s@),
{
    xml::escape::escape_str_pcdata(s).into_owned()
}

/// Everything of the document before the text.
pub open spec fn ssml_head(voice: Seq<char>, pitch: Seq<char>, rate: Seq<char>, volume: Seq<char>) -> Seq<char> {
    "<speak version=\"1.0\" xmlns=\"http://www.w3.org/2001/10/synthesis\" xmlns:mstts=\"https://www.w3.org/2001/mstts\" xml:lang=\"en-US\"><voice name=\""@
        + escape_attr(voice) + "\"><prosody pitch=\""@ + escape_attr(pitch) + "\" rate=\""@
        + escape_attr(rate) + "\" volume=\""@ + escape_attr(volume) + "\">"@
}

/// Everything of the document after the text.
pub open spec fn ssml_tail() -> Seq<char> {
    "</prosody></voice></speak>"@
}

/// The whole document.
pub open spec fn ssml_doc(
    text: Seq<char>,
    voice: Seq<char>,
    pitch: Seq<char>,
    rate: Seq<char>,
    volume: Seq<char>,
) -> Seq<char> {
    ssml_head(voice, pitch, rate, volume) + escape_text(text) + ssml_tail()
}

/// Builds the markup document that asks for `text` in voice
/// `voice_short_name` with the given pitch, rate and volume. Every value is
/// escaped for its place; none is checked.
pub fn build_ssml(text: &str, voice_short_name: &str, pitch: &str, rate: &str, volume: &str) -> (r:
    String)
    ensures
        r@ == ssml_doc(text@, voice_short_name@, pitch@, rate@, volume@),
{
    let mut s = String::from_str(
        "<speak version=\"1.0\" xmlns=\"http://www.w3.org/2001/10/synthesis\" xmlns:mstts=\"https://www.w3.org/2001/mstts\" xml:lang=\"en-US\"><voice name=\"",
    );
    s.append(escape_attribute_str(voice_short_name).as_str());
    s.append("\"><prosody pitch=\"");
    s.append(escape_attribute_str(pitch).as_str());
    s.append("\" rate=\"");
    s.append(escape_attribute_str(rate).as_str());
    s.append("\" volume=\"");
    s.append(escape_attribute_str(volume).as_str());
    s.append("\">");
    s.append(escape_pcdata_str(text).as_str());
    s.append("</prosody></voice></speak>");
    s
}

proof fn lemma_not_starts(x: Seq<char>, p: Seq<char>, i: int)
    requires
        0 <= i < p.len(),
        i < x.len(),
        x[i] != p[i],
    ensures
        !starts_with(x, p),
{
    if starts_with(x, p) {
        assert(x.subrange(0, p.len() as int)[i] == x[i]);
    }
}

proof fn lemma_starts(e: Seq<char>, r: Seq<char>)
    ensures
        starts_with(e + r, e),
        (e + r).skip(e.len() as int) == r,
{
    assert((e + r).subrange(0, e.len() as int) =~= e);
    assert((e + r).skip(e.len() as int) =~= r);
}

/// A character that no entity reference stands for is read back as itself.
proof fn lemma_unescape_plain(c: char, r: Seq<char>)
    requires
        c != '&',
    ensures
        unescape(seq![c] + r) == seq![c] + unescape(r),
{
    let x = seq![c] + r;
    lemma_starts(seq![c], r);
    lemma_not_starts(x, ent_lt(), 0);
    lemma_not_starts(x, ent_gt(), 0);
    lemma_not_starts(x, ent_amp(), 0);
    lemma_not_starts(x, ent_quot(), 0);
    lemma_not_starts(x, ent_apos(), 0);
    lemma_not_starts(x, ent_lf(), 0);
    lemma_not_starts(x, ent_cr(), 0);
}

/// An escaped attribute character is read back as the character.
proof fn lemma_unescape_attr_char(c: char, r: Seq<char>)
    ensures
        unescape(attr_char(c) + r) == seq![c] + unescape(r),
{
    let e = attr_char(c);
    let x = e + r;
    lemma_starts(e, r);
    if c == '<' {
    } else if c == '>' {
        lemma_not_starts(x, ent_lt(), 1);
    } else if c == '"' {
        lemma_not_starts(x, ent_lt(), 1);
        lemma_not_starts(x, ent_gt(), 1);
        lemma_not_starts(x, ent_amp(), 1);
    } else if c == '\'' {
        lemma_not_starts(x, ent_lt(), 1);
        lemma_not_starts(x, ent_gt(), 1);
        lemma_not_starts(x, ent_amp(), 2);
        lemma_not_starts(x, ent_quot(), 1);
    } else if c == '&' {
        lemma_not_starts(x, ent_lt(), 1);
        lemma_not_starts(x, ent_gt(), 1);
    } else if c == '\n' {
        lemma_not_starts(x, ent_lt(), 1);
        lemma_not_starts(x, ent_gt(), 1);
        lemma_not_starts(x, ent_amp(), 1);
        lemma_not_starts(x, ent_quot(), 1);
        lemma_not_starts(x, ent_apos(), 1);
    } else if c == '\r' {
        lemma_not_starts(x, ent_lt(), 1);
        lemma_not_starts(x, ent_gt(), 1);
        lemma_not_starts(x, ent_amp(), 1);
        lemma_not_starts(x, ent_quot(), 1);
        lemma_not_starts(x, ent_apos(), 1);
        lemma_not_starts(x, ent_lf(), 3);
    } else {
        lemma_unescape_plain(c, r);
    }
}

/// An escaped content character is read back as the character.
proof fn lemma_unescape_text_char(c: char, r: Seq<char>)
    ensures
        unescape(text_char(c) + r) == seq![c] + unescape(r),
{
    if c == '<' || c == '>' || c == '&' {
        lemma_unescape_attr_char(c, r);
    } else {
        lemma_unescape_plain(c, r);
    }
}

/// Escaping an attribute value and reading it back gives the value again, and
/// the escaped value holds no `"` and no `<`, so it stays inside its quotes.
pub proof fn lemma_attr_escape_round_trip(v: Seq<char>)
    ensures
        unescape(escape_attr(v)) == v,
        forall|i: int| 0 <= i < escape_attr(v).len() ==> escape_attr(v)[i] != '"' && escape_attr(v)[i] != '<',
    decreases v.len(),
{
    if v.len() > 0 {
        lemma_attr_escape_round_trip(v.skip(1));
        lemma_unescape_attr_char(v[0], escape_attr(v.skip(1)));
        assert(seq![v[0]] + v.skip(1) =~= v);
        let e = attr_char(v[0]);
        let t = escape_attr(v.skip(1));
        assert forall|i: int| 0 <= i < escape_attr(v).len() implies escape_attr(v)[i] != '"'
            && escape_attr(v)[i] != '<' by {
            if i >= e.len() {
                assert(escape_attr(v)[i] == t[i - e.len()]);
            }
        }
    }
}

/// True when `s` can stand between double quotes as an XML attribute value:
/// no `<`, no `"`, and every `&` begins one of the references that
/// `unescape` reads.
pub open spec fn is_attr_value(s: Seq<char>) -> bool {
    forall|i: int|
        0 <= i < s.len() ==> #[trigger] s[i] != '<' && s[i] != '"' && (s[i] == '&' ==> (starts_with(
            s.skip(i),
            ent_lt(),
        ) || starts_with(s.skip(i), ent_gt()) || starts_with(s.skip(i), ent_amp())
            || starts_with(s.skip(i), ent_quot()) || starts_with(s.skip(i), ent_apos())
            || starts_with(s.skip(i), ent_lf()) || starts_with(s.skip(i), ent_cr())))
}

/// An escaped attribute value can stand between double quotes.
pub proof fn lemma_escaped_attr_is_attr_value(v: Seq<char>)
    ensures
        is_attr_value(escape_attr(v)),
    decreases v.len(),
{
    if v.len() > 0 {
        lemma_escaped_attr_is_attr_value(v.skip(1));
        let e = attr_char(v[0]);
        let r = escape_attr(v.skip(1));
        let x = escape_attr(v);
        assert(x == e + r);
        assert forall|i: int| 0 <= i < x.len() implies #[trigger] x[i] != '<' && x[i] != '"' && (x[i]
            == '&' ==> (starts_with(x.skip(i), ent_lt()) || starts_with(x.skip(i), ent_gt())
            || starts_with(x.skip(i), ent_amp()) || starts_with(x.skip(i), ent_quot())
            || starts_with(x.skip(i), ent_apos()) || starts_with(x.skip(i), ent_lf())
            || starts_with(x.skip(i), ent_cr()))) by {
            if i < e.len() {
                if i == 0 {
                    lemma_starts(e, r);
                    assert(x.skip(0) =~= x);
                }
            } else {
                let j = i - e.len();
                assert(x[i] == r[j]);
                assert(x.skip(i) =~= r.skip(j));
            }
        }
    }
}

/// True when `s` is plain XML character data: no `<`, no `>`, and every `&`
/// begins one of the references `&lt;`, `&gt;` or `&amp;`.
pub open spec fn is_char_data(s: Seq<char>) -> bool {
    forall|i: int|
        0 <= i < s.len() ==> #[trigger] s[i] != '<' && s[i] != '>' && (s[i] == '&' ==> (starts_with(
            s.skip(i),
            ent_lt(),
        ) || starts_with(s.skip(i), ent_gt()) || starts_with(s.skip(i), ent_amp())))
}

/// Escaped text is plain character data.
pub proof fn lemma_escaped_text_is_char_data(t: Seq<char>)
    ensures
        is_char_data(escape_text(t)),
    decreases t.len(),
{
    if t.len() > 0 {
        lemma_escaped_text_is_char_data(t.skip(1));
        let e = text_char(t[0]);
        let r = escape_text(t.skip(1));
        let x = escape_text(t);
        assert(x == e + r);
        assert forall|i: int| 0 <= i < x.len() implies #[trigger] x[i] != '<' && x[i] != '>' && (x[i]
            == '&' ==> (starts_with(x.skip(i), ent_lt()) || starts_with(x.skip(i), ent_gt())
            || starts_with(x.skip(i), ent_amp()))) by {
            if i < e.len() {
                if i == 0 {
                    lemma_starts(e, r);
                    assert(x.skip(0) =~= x);
                }
            } else {
                let j = i - e.len();
                assert(x[i] == r[j]);
                assert(x.skip(i) =~= r.skip(j));
            }
        }
    }
}

/// Escaping text and reading it back gives the text again, and the escaped
/// text holds no `<`, so it opens no element.
pub proof fn lemma_text_escape_round_trip(t: Seq<char>)
    ensures
        unescape(escape_text(t)) == t,
        forall|i: int| 0 <= i < escape_text(t).len() ==> escape_text(t)[i] != '<',
    decreases t.len(),
{
    if t.len() > 0 {
        lemma_text_escape_round_trip(t.skip(1));
        lemma_unescape_text_char(t[0], escape_text(t.skip(1)));
        assert(seq![t[0]] + t.skip(1) =~= t);
        let e = text_char(t[0]);
        let r = escape_text(t.skip(1));
        assert forall|i: int| 0 <= i < escape_text(t).len() implies escape_text(t)[i] != '<' by {
            if i >= e.len() {
                assert(escape_text(t)[i] == r[i - e.len()]);
            }
        }
    }
}

/// In a built document, the text sits between the fixed head and tail; read
/// back it is the caller's text, whatever markup characters it held, and it
/// is plain character data, so it opens no element and ends none.
pub proof fn lemma_ssml_text_recoverable(
    text: Seq<char>,
    voice: Seq<char>,
    pitch: Seq<char>,
    rate: Seq<char>,
    volume: Seq<char>,
)
    ensures
        ({
            let d = ssml_doc(text, voice, pitch, rate, volume);
            let a = ssml_head(voice, pitch, rate, volume).len() as int;
            let b = d.len() - ssml_tail().len();
            &&& unescape(d.subrange(a, b)) == text
            &&& is_char_data(d.subrange(a, b))
            &&& forall|i: int| a <= i < b ==> d[i] != '<'
        }),
{
    let d = ssml_doc(text, voice, pitch, rate, volume);
    let a = ssml_head(voice, pitch, rate, volume).len() as int;
    let b = d.len() - ssml_tail().len();
    assert(d.subrange(a, b) =~= escape_text(text));
    lemma_text_escape_round_trip(text);
    lemma_escaped_text_is_char_data(text);
    assert forall|i: int| a <= i < b implies d[i] != '<' by {
        assert(d[i] == escape_text(text)[i - a]);
    }
}

/// In a built document each style value fills its own quoted slot: the
/// document is the fixed text with the four escaped values in their places,
/// each escaped value reads back as the value, and each is a valid attribute
/// value, without the `"` that would end its slot early.
pub proof fn lemma_ssml_attribute_slots(
    text: Seq<char>,
    voice: Seq<char>,
    pitch: Seq<char>,
    rate: Seq<char>,
    volume: Seq<char>,
)
    ensures
        ssml_doc(text, voice, pitch, rate, volume) == "<speak version=\"1.0\" xmlns=\"http://www.w3.org/2001/10/synthesis\" xmlns:mstts=\"https://www.w3.org/2001/mstts\" xml:lang=\"en-US\"><voice name=\""@
            + escape_attr(voice) + "\"><prosody pitch=\""@ + escape_attr(pitch) + "\" rate=\""@
            + escape_attr(rate) + "\" volume=\""@ + escape_attr(volume) + "\">"@
            + escape_text(text) + "</prosody></voice></speak>"@,
        unescape(escape_attr(voice)) == voice,
        unescape(escape_attr(pitch)) == pitch,
        unescape(escape_attr(rate)) == rate,
        unescape(escape_attr(volume)) == volume,
        forall|i: int| 0 <= i < escape_attr(voice).len() ==> escape_attr(voice)[i] != '"',
        forall|i: int| 0 <= i < escape_attr(pitch).len() ==> escape_attr(pitch)[i] != '"',
        forall|i: int| 0 <= i < escape_attr(rate).len() ==> escape_attr(rate)[i] != '"',
        forall|i: int| 0 <= i < escape_attr(volume).len() ==> escape_attr(volume)[i] != '"',
        is_attr_value(escape_attr(voice)),
        is_attr_value(escape_attr(pitch)),
        is_attr_value(escape_attr(rate)),
        is_attr_value(escape_attr(volume)),
{
    lemma_escaped_attr_is_attr_value(voice);
    lemma_escaped_attr_is_attr_value(pitch);
    lemma_escaped_attr_is_attr_value(rate);
    lemma_escaped_attr_is_attr_value(volume);
    lemma_attr_escape_round_trip(voice);
    lemma_attr_escape_round_trip(pitch);
    lemma_attr_escape_round_trip(rate);
    lemma_attr_escape_round_trip(volume);
}

} // verus!
