//! Identifiers of peers and rooms, and the short label under which a peer
//! shows up in the chat history.

use vstd::arithmetic::power::pow;
use vstd::prelude::*;
use vstd::string::*;
use vstd::utf8::is_ascii_chars;

verus! {

/// Identifier of one peer session, unique for the lifetime of that session.
/// It holds the 128 bits of a UUID.
#[derive(Clone, Copy, Debug, PartialEq, Eq, Hash, Structural)]
pub struct PeerId(pub u128);

/// Key under which the registry files a room. It holds the 128 bits of a UUID.
#[derive(Clone, Copy, Debug, PartialEq, Eq, Hash, Structural)]
pub struct RoomKey(pub u128);

/// Bits of the key of the room that sessions join when they ask for no other.
pub const DEFAULT_ROOM: u128 = 0xc957a42c_ec98_41fd_be84_4cd7f4a584fd;

/// Number of characters of a peer's label.
pub const LABEL_LEN: usize = 5;

/// The lower-case hexadecimal digit for `n`, meaningful for `0 <= n < 16`.
pub open spec fn hex_char(n: int) -> char {
    if n < 10 {
        (n + 48) as char
    } else {
        (n + 87) as char
    }
}

/// The `k`-th hexadecimal digit of `id`, counted from the most significant
/// one, for `0 <= k < 32`.
pub open spec fn hex_digit(id: u128, k: int) -> int {
    (id as int / pow(16, (31 - k) as nat)) % 16
}

/// How many hyphens stand before position `i` of the hyphenated form.
pub open spec fn hyphens_before(i: int) -> int {
    if i < 8 {
        0
    } else if i < 13 {
        1
    } else if i < 18 {
        2
    } else if i < 23 {
        3
    } else {
        4
    }
}

/// The hyphenated lower-case form of a UUID: 32 hexadecimal digits, most
/// significant first, in groups of 8, 4, 4, 4 and 12 with a hyphen between
/// two groups.
pub open spec fn hyphenated(id: u128) -> Seq<char> {
    Seq::new(
        36,
        |i: int|
            if i == 8 || i == 13 || i == 18 || i == 23 {
                '-'
            } else {
                hex_char(hex_digit(id, i - hyphens_before(i)))
            },
    )
}

/// The label of a peer: the first five characters of its hyphenated form.
pub open spec fn label(peer: PeerId) -> Seq<char> {
    hyphenated(peer.0).subrange(0, LABEL_LEN as int)
}

/// The hyphenated form has 36 characters, all of them ASCII.
pub proof fn hyphenated_is_ascii(id: u128)
    ensures
        hyphenated(id).len() == 36,
        is_ascii_chars(hyphenated(id)),
{
    assert forall|i: int| 0 <= i < 36 implies '\0' <= #[trigger] hyphenated(id)[i] <= '\u{7f}' by {
        let d = hex_digit(id, i - hyphens_before(i));
        assert(0 <= d < 16);
    }
}

/// Text of a UUID, as `uuid::Uuid::from_u128` followed by the `Display` of
/// `uuid::Uuid` gives it. Trusted: the UUID's bytes are those of `id`, most
/// significant first, and `Display` writes the hyphenated lower-case form.
#[verifier::external_body]
fn uuid_text(id: u128) -> (text: String)
    ensures
        text@ == hyphenated(id),
{
    uuid::Uuid::from_u128(id).to_string()
}

/// The room that sessions join when they ask for no other.
pub fn default_room() -> (key: RoomKey)
    ensures
        key == RoomKey(DEFAULT_ROOM),
{
    RoomKey(DEFAULT_ROOM)
}

impl PeerId {
    /// The full hyphenated text of the identifier.
    pub fn text(&self) -> (text: String)
        ensures
            text@ == hyphenated(self.0),
    {
        uuid_text(self.0)
    }

    /// The short label that stands for this peer in a chat line.
    pub fn label(&self) -> (name: String)
        ensures
            name@ == label(*self),
    {
        let text = uuid_text(self.0);
        proof {
            hyphenated_is_ascii(self.0);
        }
        let head = text.as_str().substring_ascii(0, LABEL_LEN);
        String::from_str(head)
    }
}

} // verus!
