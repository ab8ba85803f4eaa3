//! Chat actions that peers exchange over a direct data channel: what they
//! are, how one is rendered as a line of the history, and the binary envelope
//! that carries one.

use crate::ids::{label, PeerId};
use vstd::prelude::*;
use vstd::slice::{slice_subrange, slice_to_vec};
use vstd::string::*;
use vstd::utf8::{
    decode_utf8, encode_utf8, encode_utf8_decode_utf8, encode_utf8_valid_utf8, valid_utf8,
};

verus! {

/// A chat action as the host and the peers see it.
#[derive(Debug, PartialEq, Eq)]
pub enum Message {
    Join,
    Leave,
    Message(String),
}

/// The mathematical value of a [`Message`].
pub enum ChatAction {
    Join,
    Leave,
    Message(Seq<char>),
}

impl View for Message {
    type V = ChatAction;

    open spec fn view(&self) -> ChatAction {
        match self {
            Message::Join => ChatAction::Join,
            Message::Leave => ChatAction::Leave,
            Message::Message(text) => ChatAction::Message(text@),
        }
    }
}

/// The history line for `action` when `peer` is its author.
pub open spec fn chat_line(action: ChatAction, peer: PeerId) -> Seq<char> {
    match action {
        ChatAction::Join => label(peer) + " joined"@,
        ChatAction::Leave => label(peer) + " left"@,
        ChatAction::Message(text) => label(peer) + ": "@ + text,
    }
}

/// Tag of `Join` in the envelope.
pub const TAG_JOIN: u32 = 0;

/// Tag of `Leave` in the envelope.
pub const TAG_LEAVE: u32 = 1;

/// Tag of `Message` in the envelope.
pub const TAG_MESSAGE: u32 = 2;

/// The four bytes of `x`, least significant first, for `x` below 2^32.
pub open spec fn le4(x: nat) -> Seq<u8> {
    seq![
        (x % 256) as u8,
        (x / 256 % 256) as u8,
        (x / 65536 % 256) as u8,
        (x / 16777216 % 256) as u8,
    ]
}

/// The eight bytes of `x`, least significant first, for `x` below 2^64.
pub open spec fn le8(x: nat) -> Seq<u8> {
    le4(x % 4294967296) + le4(x / 4294967296)
}

/// The number that the four bytes at `at` spell, least significant first.
pub open spec fn val4(bytes: Seq<u8>, at: int) -> nat {
    (bytes[at] as nat) + 256 * (bytes[at + 1] as nat) + 65536 * (bytes[at + 2] as nat) + 16777216
        * (bytes[at + 3] as nat)
}

/// The number that the eight bytes at `at` spell, least significant first.
pub open spec fn val8(bytes: Seq<u8>, at: int) -> nat {
    val4(bytes, at) + 4294967296 * val4(bytes, at + 4)
}

/// The envelope of an action: a four-byte tag, and for a message the length
/// of its UTF-8 text in eight bytes, then the text. All numbers are
/// little-endian.
pub open spec fn encoding(action: ChatAction) -> Seq<u8> {
    match action {
        ChatAction::Join => le4(TAG_JOIN as nat),
        ChatAction::Leave => le4(TAG_LEAVE as nat),
        ChatAction::Message(text) => le4(TAG_MESSAGE as nat) + le8(encode_utf8(text).len())
            + encode_utf8(text),
    }
}

/// What an envelope holds, or `None` where the bytes are no envelope: too
/// short for the tag, an unknown tag, too short for the length or for the
/// text that the length announces, or a text that is not UTF-8. Bytes after
/// the envelope are ignored.
pub open spec fn decoding(bytes: Seq<u8>) -> Option<ChatAction> {
    if bytes.len() < 4 {
        None
    } else if val4(bytes, 0) == TAG_JOIN {
        Some(ChatAction::Join)
    } else if val4(bytes, 0) == TAG_LEAVE {
        Some(ChatAction::Leave)
    } else if val4(bytes, 0) == TAG_MESSAGE {
        if bytes.len() < 12 || val8(bytes, 4) > bytes.len() - 12 {
            None
        } else {
            let text = bytes.subrange(12, 12 + val8(bytes, 4) as int);
            if valid_utf8(text) {
                Some(ChatAction::Message(decode_utf8(text)))
            } else {
                None
            }
        }
    } else {
        None
    }
}

/// An action whose text, if it has one, is short enough for its length to
/// stand in the envelope. Every [`Message`] is.
pub open spec fn fits_envelope(action: ChatAction) -> bool {
    action matches ChatAction::Message(text) ==> encode_utf8(text).len() <= u64::MAX
}

/// A number below 2^32 is the sum of its four bytes, each at its weight.
proof fn four_bytes_sum(x: nat)
    requires
        x <= u32::MAX,
    ensures
        x == (x % 256) + 256 * (x / 256 % 256) + 65536 * (x / 65536 % 256) + 16777216 * (x
            / 16777216 % 256),
{
    let a = x / 256;
    let b = a / 256;
    let c = b / 256;
    assert(x == 256 * a + x % 256);
    assert(a == 256 * b + a % 256);
    assert(b == 256 * c + b % 256);
    assert(x / 65536 == b);
    assert(x / 16777216 == c);
    assert(c < 256);
}

/// The four bytes spell the number they were made from.
pub proof fn le4_spells(x: nat, before: Seq<u8>, after: Seq<u8>)
    requires
        x <= u32::MAX,
    ensures
        val4(before + le4(x) + after, before.len() as int) == x,
{
    let all = before + le4(x) + after;
    let at = before.len() as int;
    assert(all[at] == (x % 256) as u8);
    assert(all[at + 1] == (x / 256 % 256) as u8);
    assert(all[at + 2] == (x / 65536 % 256) as u8);
    assert(all[at + 3] == (x / 16777216 % 256) as u8);
    four_bytes_sum(x);
}

/// The eight bytes spell the number they were made from.
pub proof fn le8_spells(x: nat, before: Seq<u8>, after: Seq<u8>)
    requires
        x <= u64::MAX,
    ensures
        val8(before + le8(x) + after, before.len() as int) == x,
{
    let low = x % 4294967296;
    let high = x / 4294967296;
    let all = before + le8(x) + after;
    assert(all =~= before + le4(low) + (le4(high) + after));
    le4_spells(low, before, le4(high) + after);
    assert(all =~= (before + le4(low)) + le4(high) + after);
    le4_spells(high, before + le4(low), after);
}

/// The envelope of a message, followed by any bytes, decodes to the message.
proof fn message_envelope_decodes(text: Seq<char>, trailing: Seq<u8>)
    requires
        encode_utf8(text).len() <= u64::MAX,
    ensures
        decoding(encoding(ChatAction::Message(text)) + trailing) == Some(ChatAction::Message(text)),
{
    let body = encode_utf8(text);
    let n = body.len();
    let tag = le4(TAG_MESSAGE as nat);
    let bytes = encoding(ChatAction::Message(text)) + trailing;
    assert(tag.len() == 4 && le8(n).len() == 8);
    assert(bytes.len() == 12 + n + trailing.len());
    assert(val4(bytes, 0) == TAG_MESSAGE) by {
        assert(bytes =~= Seq::<u8>::empty() + tag + (le8(n) + body + trailing));
        le4_spells(TAG_MESSAGE as nat, Seq::empty(), le8(n) + body + trailing);
    }
    assert(val8(bytes, 4) == n) by {
        assert(bytes =~= tag + le8(n) + (body + trailing));
        le8_spells(n, tag, body + trailing);
    }
    assert(bytes.subrange(12, 12 + n as int) == body) by {
        assert(bytes.subrange(12, 12 + n as int) =~= body);
    }
    assert(valid_utf8(body)) by {
        encode_utf8_valid_utf8(text);
    }
    assert(decode_utf8(body) == text) by {
        encode_utf8_decode_utf8(text);
    }
}

/// Decoding the envelope of an action gives the action back, whatever bytes
/// follow the envelope.
pub proof fn decoding_inverts_encoding(action: ChatAction, trailing: Seq<u8>)
    requires
        fits_envelope(action),
    ensures
        decoding(encoding(action) + trailing) == Some(action),
{
    let bytes = encoding(action) + trailing;
    match action {
        ChatAction::Join => {
            assert(bytes =~= Seq::<u8>::empty() + le4(TAG_JOIN as nat) + trailing);
            le4_spells(TAG_JOIN as nat, Seq::empty(), trailing);
        },
        ChatAction::Leave => {
            assert(bytes =~= Seq::<u8>::empty() + le4(TAG_LEAVE as nat) + trailing);
            le4_spells(TAG_LEAVE as nat, Seq::empty(), trailing);
        },
        ChatAction::Message(text) => {
            message_envelope_decodes(text, trailing);
        },
    }
}

/// Encoding then decoding any action yields the action.
pub proof fn round_trip(action: ChatAction)
    requires
        fits_envelope(action),
    ensures
        decoding(encoding(action)) == Some(action),
{
    decoding_inverts_encoding(action, Seq::empty());
    assert(encoding(action) + Seq::<u8>::empty() =~= encoding(action));
}

/// The text that `bytes` spell in UTF-8, as `String::from_utf8` of std gives
/// it. Trusted: the call succeeds exactly on well-formed UTF-8, and the text
/// then holds the characters that the bytes encode.
#[verifier::external_body]
fn text_of_utf8(bytes: Vec<u8>) -> (text: Option<String>)
    ensures
        text is Some <==> valid_utf8(bytes@),
        text matches Some(t) ==> t@ == decode_utf8(bytes@),
{
    String::from_utf8(bytes).ok()
}

fn push_le4(out: &mut Vec<u8>, x: u32)
    ensures
        final(out)@ == old(out)@ + le4(x as nat),
{
    out.push((x % 256) as u8);
    out.push((x / 256 % 256) as u8);
    out.push((x / 65536 % 256) as u8);
    out.push((x / 16777216 % 256) as u8);
    assert(out@ =~= old(out)@ + le4(x as nat));
}

fn push_le8(out: &mut Vec<u8>, x: u64)
    ensures
        final(out)@ == old(out)@ + le8(x as nat),
{
    push_le4(out, (x % 4294967296) as u32);
    push_le4(out, (x / 4294967296) as u32);
    assert(out@ =~= old(out)@ + le8(x as nat));
}

pub(crate) fn push_all(out: &mut Vec<u8>, bytes: &[u8])
    ensures
        final(out)@ == old(out)@ + bytes@,
{
    let mut i: usize = 0;
    while i < bytes.len()
        invariant
            i <= bytes.len(),
            out@ == old(out)@ + bytes@.subrange(0, i as int),
        decreases bytes.len() - i,
    {
        out.push(bytes[i]);
        i += 1;
        assert(out@ =~= old(out)@ + bytes@.subrange(0, i as int));
    }
    assert(bytes@.subrange(0, i as int) =~= bytes@);
}

fn read_le4(bytes: &[u8], at: usize) -> (x: u32)
    requires
        at + 4 <= bytes.len(),
    ensures
        x == val4(bytes@, at as int),
{
    let b0: u32 = bytes[at] as u32;
    let b1: u32 = bytes[at + 1] as u32;
    let b2: u32 = bytes[at + 2] as u32;
    let b3: u32 = bytes[at + 3] as u32;
    b0 + 256 * b1 + 65536 * b2 + 16777216 * b3
}

fn read_le8(bytes: &[u8], at: usize) -> (x: u64)
    requires
        at + 8 <= bytes.len(),
    ensures
        x == val8(bytes@, at as int),
{
    let low: u64 = read_le4(bytes, at) as u64;
    let high: u64 = read_le4(bytes, at + 4) as u64;
    low + 4294967296 * high
}

impl Message {
    /// Renders the action as a line of the history, with `peer_id` as its
    /// author.
    pub fn to_chat_message(&self, peer_id: PeerId) -> (line: String)
        ensures
            line@ == chat_line(self@, peer_id),
    {
        let mut line = peer_id.label();
        match self {
            Message::Join => {
                line.append(" joined");
            },
            Message::Leave => {
                line.append(" left");
            },
            Message::Message(text) => {
                line.append(": ");
                line.append(text.as_str());
            },
        }
        line
    }

    /// A copy of the action.
    pub fn duplicate(&self) -> (copy: Message)
        ensures
            copy@ == self@,
    {
        match self {
            Message::Join => Message::Join,
            Message::Leave => Message::Leave,
            Message::Message(text) => Message::Message(text.clone()),
        }
    }

    /// The envelope of the action.
    pub fn encode(&self) -> (bytes: Vec<u8>)
        ensures
            bytes@ == encoding(self@),
            fits_envelope(self@),
    {
        let mut bytes: Vec<u8> = Vec::new();
        match self {
            Message::Join => {
                push_le4(&mut bytes, TAG_JOIN);
            },
            Message::Leave => {
                push_le4(&mut bytes, TAG_LEAVE);
            },
            Message::Message(text) => {
                let body = text.as_str().as_bytes();
                push_le4(&mut bytes, TAG_MESSAGE);
                push_le8(&mut bytes, body.len() as u64);
                push_all(&mut bytes, body);
            },
        }
        bytes
    }

    /// Reads an action from the front of `bytes`.
    pub fn decode(bytes: &[u8]) -> (message: Option<Message>)
        ensures
            match message {
                Some(m) => decoding(bytes@) == Some(m@),
                None => decoding(bytes@) is None,
            },
    {
        if bytes.len() < 4 {
            return None;
        }
        let tag = read_le4(bytes, 0);
        if tag == TAG_JOIN {
            Some(Message::Join)
        } else if tag == TAG_LEAVE {
            Some(Message::Leave)
        } else if tag == TAG_MESSAGE {
            if bytes.len() < 12 {
                return None;
            }
            let announced = read_le8(bytes, 4);
            if announced > (bytes.len() - 12) as u64 {
                return None;
            }
            let end: usize = 12 + announced as usize;
            let body = slice_to_vec(slice_subrange(bytes, 12, end));
            match text_of_utf8(body) {
                Some(text) => Some(Message::Message(text)),
                None => None,
            }
        } else {
            None
        }
    }
}

} // verus!
