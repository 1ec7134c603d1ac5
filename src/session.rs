//! The session engine: what each incoming frame does to a session, and the
//! two text frames a session opens with.

use vstd::prelude::*;
use vstd::slice::{slice_subrange, slice_to_vec};
use vstd::string::StringSliceAdditionalSpecFns;
use vstd::utf8::encode_utf8;
use crate::headers::{has_header, has_pair, header_pairs, parse_headers};

verus! {

/// One frame read from the channel.
pub enum Frame {
    /// A text frame: a header block, a blank line, then an optional body.
    Text(String),
    /// A binary frame: a two-byte big-endian header length, the header block, the payload.
    Binary(Vec<u8>),
    /// Any other frame (ping, pong, close); it leaves the session as it is.
    Other,
}

/// Why a session failed.
#[derive(Debug, Clone, Copy, PartialEq, Eq, Structural)]
pub enum SessionError {
    /// A text frame without the blank line that ends its header block.
    MalformedText,
    /// A binary frame shorter than its declared header block.
    MalformedBinary { len: usize, header_len: usize },
    /// A turn-end or audio frame without the session's request identifier.
    IdMismatch,
    /// The channel failed or closed before the turn ended.
    Transport,
}

/// What one frame does to a session.
pub enum Effect {
    Ignore,
    Append(Seq<u8>),
    Finish,
    Fail(SessionError),
}

pub open spec fn key_path() -> Seq<u8> {
    seq![80u8, 97, 116, 104]
}

pub open spec fn key_request_id() -> Seq<u8> {
    seq![88u8, 45, 82, 101, 113, 117, 101, 115, 116, 73, 100]
}

pub open spec fn path_turn_end() -> Seq<u8> {
    seq![116u8, 117, 114, 110, 46, 101, 110, 100]
}

pub open spec fn path_audio() -> Seq<u8> {
    seq![97u8, 117, 100, 105, 111]
}

/// True when the blank line CR LF CR LF starts at `i`.
pub open spec fn blank_at(s: Seq<u8>, i: int) -> bool {
    0 <= i && i + 3 < s.len() && s[i] == 13u8 && s[i + 1] == 10u8 && s[i + 2] == 13u8
        && s[i + 3] == 10u8
}

/// Index of the first blank line at or after `i`, or the length of `s` when there is none.
pub open spec fn next_blank(s: Seq<u8>, i: int) -> int
    decreases s.len() - i,
{
    if i + 3 >= s.len() {
        s.len() as int
    } else if blank_at(s, i) {
        i
    } else {
        next_blank(s, i + 1)
    }
}

/// What a text frame with bytes `t` does in the session with identifier `id`.
pub open spec fn text_effect(id: Seq<u8>, t: Seq<u8>) -> Effect {
    let d = next_blank(t, 0);
    if d >= t.len() {
        Effect::Fail(SessionError::MalformedText)
    } else {
        let h = header_pairs(t.subrange(0, d));
        if has_pair(h, key_path(), path_turn_end()) {
            if has_pair(h, key_request_id(), id) {
                Effect::Finish
            } else {
                Effect::Fail(SessionError::IdMismatch)
            }
        } else {
            Effect::Ignore
        }
    }
}

/// The header length that a binary frame declares in its first two bytes.
pub open spec fn declared_header_len(b: Seq<u8>) -> int {
    if b.len() < 2 {
        0
    } else {
        b[0] as int * 256 + b[1] as int
    }
}

/// What a binary frame `b` does in the session with identifier `id`.
pub open spec fn binary_effect(id: Seq<u8>, b: Seq<u8>) -> Effect {
    let hl = declared_header_len(b);
    if b.len() < hl + 2 {
        Effect::Fail(SessionError::MalformedBinary { len: b.len() as usize, header_len: hl as usize })
    } else {
        let h = header_pairs(b.subrange(2, hl + 2));
        if has_pair(h, key_path(), path_audio()) {
            if has_pair(h, key_request_id(), id) {
                Effect::Append(b.subrange(hl + 2, b.len() as int))
            } else {
                Effect::Fail(SessionError::IdMismatch)
            }
        } else {
            Effect::Ignore
        }
    }
}

/// What frame `f` does in the session with identifier `id`.
pub open spec fn frame_effect(id: Seq<u8>, f: Frame) -> Effect {
    match f {
        Frame::Text(t) => text_effect(id, encode_utf8(t@)),
        Frame::Binary(b) => binary_effect(id, b@),
        Frame::Other => Effect::Ignore,
    }
}

/// What the step that meets effect `e` returns: `Ok(true)` when the session is done.
pub open spec fn step_result(e: Effect) -> Result<bool, SessionError> {
    match e {
        Effect::Finish => Ok(true),
        Effect::Fail(err) => Err(err),
        _ => Ok(false),
    }
}

/// The audio after effect `e` on `audio`.
pub open spec fn audio_after(audio: Seq<u8>, e: Effect) -> Seq<u8> {
    match e {
        Effect::Append(p) => audio + p,
        _ => audio,
    }
}

/// The outcome of a session with identifier `id` that has gathered `audio` and
/// then reads `fs`; running out of frames is a failure of the channel.
pub open spec fn outcome(id: Seq<u8>, audio: Seq<u8>, fs: Seq<Frame>) -> Result<Seq<u8>, SessionError>
    decreases fs.len(),
{
    if fs.len() == 0 {
        Err(SessionError::Transport)
    } else {
        match frame_effect(id, fs[0]) {
            Effect::Finish => Ok(audio),
            Effect::Fail(err) => Err(err),
            Effect::Append(p) => outcome(id, audio + p, fs.skip(1)),
            Effect::Ignore => outcome(id, audio, fs.skip(1)),
        }
    }
}

/// One running session: its request identifier and the audio gathered so far.
pub struct Session {
    pub request_id: Vec<u8>,
    pub audio: Vec<u8>,
}

/// Position of the first blank line in `s` at or after `i`.
fn find_blank(s: &[u8], i: usize) -> (r: usize)
    requires
        i <= s@.len(),
    ensures
        r == next_blank(s@, i as int),
{
    let mut j: usize = i;
    while s.len() > 3 && j < s.len() - 3
        invariant
            i <= j <= s@.len(),
            next_blank(s@, j as int) == next_blank(s@, i as int),
        decreases s@.len() - j,
    {
        if s[j] == 13u8 && s[j + 1] == 10u8 && s[j + 2] == 13u8 && s[j + 3] == 10u8 {
            return j;
        }
        j = j + 1;
    }
    s.len()
}

fn key_path_bytes() -> (r: Vec<u8>)
    ensures
        r@ == key_path(),
{
    let r = vec![80u8, 97, 116, 104];
    assert(r@ =~= key_path());
    r
}

fn key_request_id_bytes() -> (r: Vec<u8>)
    ensures
        r@ == key_request_id(),
{
    let r = vec![88u8, 45, 82, 101, 113, 117, 101, 115, 116, 73, 100];
    assert(r@ =~= key_request_id());
    r
}

fn path_turn_end_bytes() -> (r: Vec<u8>)
    ensures
        r@ == path_turn_end(),
{
    let r = vec![116u8, 117, 114, 110, 46, 101, 110, 100];
    assert(r@ =~= path_turn_end());
    r
}

fn path_audio_bytes() -> (r: Vec<u8>)
    ensures
        r@ == path_audio(),
{
    let r = vec![97u8, 117, 100, 105, 111];
    assert(r@ =~= path_audio());
    r
}

/// Classifies a text frame's bytes.
pub fn text_frame_effect(id: &[u8], t: &[u8]) -> (r: Result<bool, SessionError>)
    ensures
        r == step_result(text_effect(id@, t@)),
{
    let d = find_blank(t, 0);
    if d >= t.len() {
        return Err(SessionError::MalformedText);
    }
    let h = parse_headers(slice_subrange(t, 0, d));
    if has_header(&h, key_path_bytes().as_slice(), path_turn_end_bytes().as_slice()) {
        if has_header(&h, key_request_id_bytes().as_slice(), id) {
            Ok(true)
        } else {
            Err(SessionError::IdMismatch)
        }
    } else {
        Ok(false)
    }
}

impl Session {
    /// A session with identifier `request_id` and no audio yet.
    pub fn new(request_id: &str) -> (s: Session)
        ensures
            s.request_id@ == request_id.spec_bytes(),
            s.audio@.len() == 0,
    {
        Session { request_id: slice_to_vec(request_id.as_bytes()), audio: Vec::new() }
    }

    /// Takes one frame: appends its audio, or ends or fails the session, or
    /// leaves it as it is. Returns `Ok(true)` when the turn has ended.
    pub fn handle_frame(&mut self, frame: &Frame) -> (r: Result<bool, SessionError>)
        ensures
            final(self).request_id@ == old(self).request_id@,
            r == step_result(frame_effect(old(self).request_id@, *frame)),
            final(self).audio@ == audio_after(
                old(self).audio@,
                frame_effect(old(self).request_id@, *frame),
            ),
    {
        match frame {
            Frame::Text(t) => text_frame_effect(self.request_id.as_slice(), t.as_str().as_bytes()),
            Frame::Binary(b) => {
                let len = b.len();
                if len < 2 {
                    return Err(SessionError::MalformedBinary { len, header_len: 0 });
                }
                let header_len = b[0] as usize * 256 + b[1] as usize;
                if len < header_len + 2 {
                    return Err(SessionError::MalformedBinary { len, header_len });
                }
                let h = parse_headers(slice_subrange(b.as_slice(), 2, header_len + 2));
                if has_header(&h, key_path_bytes().as_slice(), path_audio_bytes().as_slice()) {
                    if has_header(&h, key_request_id_bytes().as_slice(), self.request_id.as_slice()) {
                        let payload = slice_subrange(b.as_slice(), header_len + 2, len);
                        self.audio.extend_from_slice(payload);
                        Ok(false)
                    } else {
                        Err(SessionError::IdMismatch)
                    }
                } else {
                    Ok(false)
                }
            },
            Frame::Other => Ok(false),
        }
    }
}

/// Runs a session with identifier `request_id` over the frames `frames`, in
/// order, and returns its audio once the turn has ended.
pub fn run_session(request_id: &str, frames: &Vec<Frame>) -> (r: Result<Vec<u8>, SessionError>)
    ensures
        match r {
            Ok(a) => outcome(request_id.spec_bytes(), Seq::empty(), frames@) == Ok::<
                Seq<u8>,
                SessionError,
            >(a@),
            Err(e) => outcome(request_id.spec_bytes(), Seq::empty(), frames@) == Err::<
                Seq<u8>,
                SessionError,
            >(e),
        },
{
    let mut session = Session::new(request_id);
    let mut i: usize = 0;
    assert(session.audio@ =~= Seq::<u8>::empty());
    assert(frames@.skip(0) =~= frames@);
    while i < frames.len()
        invariant
            i <= frames@.len(),
            session.request_id@ == request_id.spec_bytes(),
            outcome(request_id.spec_bytes(), Seq::empty(), frames@) == outcome(
                request_id.spec_bytes(),
                session.audio@,
                frames@.skip(i as int),
            ),
        decreases frames@.len() - i,
    {
        let ghost fs = frames@.skip(i as int);
        assert(fs.skip(1) =~= frames@.skip(i + 1));
        match session.handle_frame(&frames[i]) {
            Ok(true) => {
                return Ok(session.audio);
            },
            Ok(false) => {},
            Err(e) => {
                return Err(e);
            },
        }
        i = i + 1;
    }
    Err(SessionError::Transport)
}

/// The payloads that the frames `fs` append, concatenated in wire order.
pub open spec fn gathered(id: Seq<u8>, fs: Seq<Frame>) -> Seq<u8>
    decreases fs.len(),
{
    if fs.len() == 0 {
        Seq::empty()
    } else {
        match frame_effect(id, fs[0]) {
            Effect::Append(p) => p + gathered(id, fs.skip(1)),
            _ => gathered(id, fs.skip(1)),
        }
    }
}

/// True when frame `f` neither ends nor fails the session with identifier `id`.
pub open spec fn continues(id: Seq<u8>, f: Frame) -> bool {
    match frame_effect(id, f) {
        Effect::Ignore => true,
        Effect::Append(_) => true,
        _ => false,
    }
}

/// A session whose frames all continue it until a turn-end frame returns the
/// audio it had followed by every appended payload, in the order the frames
/// came: nothing is reordered, interleaved or dropped.
pub proof fn lemma_turn_end_returns_audio_in_order(id: Seq<u8>, audio: Seq<u8>, fs: Seq<Frame>)
    requires
        fs.len() > 0,
        forall|i: int| 0 <= i < fs.len() - 1 ==> continues(id, #[trigger] fs[i]),
        frame_effect(id, fs.last()) == Effect::Finish,
    ensures
        outcome(id, audio, fs) == Ok::<Seq<u8>, SessionError>(audio + gathered(id, fs.drop_last())),
    decreases fs.len(),
{
    if fs.len() == 1 {
        assert(fs.drop_last() =~= Seq::<Frame>::empty());
        assert(audio + Seq::<u8>::empty() =~= audio);
    } else {
        let rest = fs.skip(1);
        assert(continues(id, fs[0]));
        assert forall|i: int| 0 <= i < rest.len() - 1 implies continues(id, #[trigger] rest[i]) by {
            assert(rest[i] == fs[i + 1]);
        }
        assert(rest.last() == fs.last());
        lemma_turn_end_returns_audio_in_order(id, audio_after(audio, frame_effect(id, fs[0])), rest);
        assert(fs.drop_last().skip(1) =~= rest.drop_last());
        assert(fs.drop_last()[0] == fs[0]);
        match frame_effect(id, fs[0]) {
            Effect::Append(p) => {
                assert((audio + p) + gathered(id, rest.drop_last()) =~= audio + (p + gathered(
                    id,
                    rest.drop_last(),
                )));
            },
            _ => {},
        }
    }
}

/// A frame that fails the session, after frames that all continued it, makes
/// the whole session fail with that frame's error: no audio is returned.
pub proof fn lemma_failure_discards_audio(id: Seq<u8>, audio: Seq<u8>, fs: Seq<Frame>, k: int, e: SessionError)
    requires
        0 <= k < fs.len(),
        forall|i: int| 0 <= i < k ==> continues(id, #[trigger] fs[i]),
        frame_effect(id, fs[k]) == Effect::Fail(e),
    ensures
        outcome(id, audio, fs) == Err::<Seq<u8>, SessionError>(e),
    decreases k,
{
    if k > 0 {
        let rest = fs.skip(1);
        assert(continues(id, fs[0]));
        assert forall|i: int| 0 <= i < k - 1 implies continues(id, #[trigger] rest[i]) by {
            assert(rest[i] == fs[i + 1]);
        }
        assert(rest[k - 1] == fs[k]);
        lemma_failure_discards_audio(id, audio_after(audio, frame_effect(id, fs[0])), rest, k - 1, e);
    }
}

/// Two audio frames then a turn end give the two payloads one after the other.
pub proof fn lemma_two_audio_frames_concatenate(
    id: Seq<u8>,
    a: Frame,
    b: Frame,
    end: Frame,
    p: Seq<u8>,
    q: Seq<u8>,
)
    requires
        frame_effect(id, a) == Effect::Append(p),
        frame_effect(id, b) == Effect::Append(q),
        frame_effect(id, end) == Effect::Finish,
    ensures
        outcome(id, Seq::empty(), seq![a, b, end]) == Ok::<Seq<u8>, SessionError>(p + q),
{
    let fs = seq![a, b, end];
    let head = fs.drop_last();
    assert(head =~= seq![a, b]);
    assert(head.skip(1) =~= seq![b]);
    assert(head.skip(1).skip(1) =~= Seq::<Frame>::empty());
    assert(head.skip(1)[0] == b);
    assert(gathered(id, head.skip(1).skip(1)) == Seq::<u8>::empty());
    assert(q + Seq::<u8>::empty() =~= q);
    assert(gathered(id, head.skip(1)) == q);
    assert(head[0] == a);
    assert forall|i: int| 0 <= i < fs.len() - 1 implies continues(id, #[trigger] fs[i]) by {
        if i == 0 {
            assert(fs[i] == a);
        } else {
            assert(fs[i] == b);
        }
    }
    lemma_turn_end_returns_audio_in_order(id, Seq::empty(), fs);
    assert(Seq::<u8>::empty() + (p + q) =~= p + q);
}

} // verus!
