//! The request identifier and the two text frames that open a session.

use vstd::prelude::*;
use vstd::string::{StrSliceExecFns, StringExecFns};

verus! {

/// The lowercase hexadecimal digit for `n`, which is below 16.
pub open spec fn hex_digit(n: int) -> char {
    seq!['0', '1', '2', '3', '4', '5', '6', '7', '8', '9', 'a', 'b', 'c', 'd', 'e', 'f'][n]
}

/// Two lowercase hexadecimal digits per byte, high digit first.
pub open spec fn lower_hex(b: Seq<u8>) -> Seq<char>
    decreases b.len(),
{
    if b.len() == 0 {
        Seq::empty()
    } else {
        seq![hex_digit(b[0] as int / 16), hex_digit(b[0] as int % 16)] + lower_hex(b.skip(1))
    }
}

pub proof fn lemma_lower_hex_len(b: Seq<u8>)
    ensures
        lower_hex(b).len() == 2 * b.len(),
    decreases b.len(),
{
    if b.len() > 0 {
        lemma_lower_hex_len(b.skip(1));
    }
}

/// Relies on rand::thread_rng and RngCore::fill_bytes: `n` random bytes.
#[verifier::external_body]
fn random_bytes(n: usize) -> (r: Vec<u8>)
    ensures
        r@.len() == n,
{
    let mut buf = vec![0u8; n];
    rand::RngCore::fill_bytes(&mut rand::thread_rng(), &mut buf);
    buf
}

/// Relies on hex::encode: two lowercase hexadecimal digits per byte, in order.
#[verifier::external_body]
fn hex_encode(b: &[u8]) -> (r: String)
    ensures
        r@ == lower_hex(b@),
{
    hex::encode(b)
}

/// A fresh request identifier: sixteen random bytes as 32 lowercase hexadecimal digits.
pub fn random_request_id() -> (r: String)
    ensures
        r@.len() == 32,
        exists|b: Seq<u8>| b.len() == 16 && r@ == lower_hex(b),
{
    let b = random_bytes(16);
    let r = hex_encode(b.as_slice());
    proof {
        lemma_lower_hex_len(b@);
    }
    r
}

/// How one character is written inside a JSON string: quote and backslash
/// behind a backslash, control characters as `\u00XX`, the rest as itself.
pub open spec fn json_char(c: char) -> Seq<char> {
    if c == '"' {
        seq!['\\', '"']
    } else if c == '\\' {
        seq!['\\', '\\']
    } else if (c as u32) < 32 {
        seq!['\\', 'u', '0', '0', hex_digit(c as u32 as int / 16), hex_digit(c as u32 as int % 16)]
    } else {
        seq![c]
    }
}

/// `s` as the contents of a JSON string.
pub open spec fn json_escape(s: Seq<char>) -> Seq<char>
    decreases s.len(),
{
    if s.len() == 0 {
        Seq::empty()
    } else {
        json_escape(s.drop_last()) + json_char(s.last())
    }
}

/// Writes `s` as the contents of a JSON string.
pub fn json_escape_str(s: &str) -> (r: String)
    ensures
        r@ == json_escape(s@),
{
    let digits = "0123456789abcdef";
    proof {
        reveal_strlit("0123456789abcdef");
        assert(digits@ =~= seq!['0', '1', '2', '3', '4', '5', '6', '7', '8', '9', 'a', 'b', 'c', 'd', 'e', 'f']);
    }
    let n = s.unicode_len();
    let mut out = String::new();
    let mut i: usize = 0;
    assert(s@.subrange(0, 0) =~= Seq::<char>::empty());
    while i < n
        invariant
            n == s@.len(),
            i <= n,
            digits@ == seq!['0', '1', '2', '3', '4', '5', '6', '7', '8', '9', 'a', 'b', 'c', 'd', 'e', 'f'],
            out@ == json_escape(s@.subrange(0, i as int)),
        decreases n - i,
    {
        let c = s.get_char(i);
        let ghost before = out@;
        if c == '"' {
            proof {
                reveal_strlit("\\\"");
            }
            out.append("\\\"");
            assert(out@ =~= before + json_char(c));
        } else if c == '\\' {
            proof {
                reveal_strlit("\\\\");
            }
            out.append("\\\\");
            assert(out@ =~= before + json_char(c));
        } else if (c as u32) < 32 {
            let hi = (c as u32 / 16) as usize;
            let lo = (c as u32 % 16) as usize;
            proof {
                reveal_strlit("\\u00");
            }
            out.append("\\u00");
            out.append(digits.substring_char(hi, hi + 1));
            out.append(digits.substring_char(lo, lo + 1));
            assert(out@ =~= before + json_char(c));
        } else {
            out.append(s.substring_char(i, i + 1));
            assert(out@ =~= before + json_char(c));
        }
        assert(s@.subrange(0, i + 1).drop_last() =~= s@.subrange(0, i as int));
        i = i + 1;
    }
    assert(s@.subrange(0, n as int) =~= s@);
    out
}

/// The configuration frame: audio format `f`, word boundaries on, sentence boundaries off.
pub open spec fn config_message_spec(f: Seq<char>) -> Seq<char> {
    "Content-Type:application/json; charset=utf-8\r\nPath:speech.config\r\n\r\n{\"context\":{\"synthesis\":{\"audio\":{\"metadataoptions\":{\"sentenceBoundaryEnabled\":false,\"wordBoundaryEnabled\":true},\"outputFormat\":\""@
        + json_escape(f) + "\"}}}}"@
}

/// The submission frame: request identifier `id` and markup document `ssml`.
pub open spec fn ssml_message_spec(id: Seq<char>, ssml: Seq<char>) -> Seq<char> {
    "X-RequestId:"@ + id + "\r\nContent-Type:application/ssml+xml\r\nPath:ssml\r\n\r\n"@ + ssml
}

/// Builds the configuration frame for the audio format `output_format`,
/// written as a JSON string.
pub fn config_message(output_format: &str) -> (r: String)
    ensures
        r@ == config_message_spec(output_format@),
{
    let mut s = String::from_str(
        "Content-Type:application/json; charset=utf-8\r\nPath:speech.config\r\n\r\n{\"context\":{\"synthesis\":{\"audio\":{\"metadataoptions\":{\"sentenceBoundaryEnabled\":false,\"wordBoundaryEnabled\":true},\"outputFormat\":\"",
    );
    s.append(json_escape_str(output_format).as_str());
    s.append("\"}}}}");
    s
}

/// Builds the submission frame that carries `ssml` under the identifier `request_id`.
pub fn ssml_message(request_id: &str, ssml: &str) -> (r: String)
    ensures
        r@ == ssml_message_spec(request_id@, ssml@),
{
    let mut s = String::from_str("X-RequestId:");
    s.append(request_id);
    s.append("\r\nContent-Type:application/ssml+xml\r\nPath:ssml\r\n\r\n");
    s.append(ssml);
    s
}

} // verus!
