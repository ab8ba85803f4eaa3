//! What the relay and the bridge are configured with: where the relay
//! listens, which origin it allows, and where the bridge finds the relay.

use vstd::prelude::*;
use vstd::string::*;

verus! {

/// Where the relay runs.
#[derive(Clone, Copy, Debug, PartialEq, Eq, Structural)]
pub enum Mode {
    /// On the developer's machine.
    Local,
    /// On a hosting platform, which assigns the port.
    Hosted,
}

/// The port on which the relay listens where none is configured.
pub const DEFAULT_PORT: u16 = 3536;

/// The port on which the relay listens where the configured text is no port.
pub const FALLBACK_PORT: u16 = 3000;

/// Whether `byte` is an ASCII decimal digit.
pub open spec fn is_digit(byte: u8) -> bool {
    48 <= byte <= 57
}

/// Whether every byte of `text` is an ASCII decimal digit.
pub open spec fn all_digits(text: Seq<u8>) -> bool {
    forall|i: int| 0 <= i < text.len() ==> is_digit(#[trigger] text[i])
}

/// The number that decimal digits spell.
pub open spec fn decimal(digits: Seq<u8>) -> nat
    decreases digits.len(),
{
    if digits.len() == 0 {
        0
    } else {
        10 * decimal(digits.drop_last()) + (digits.last() - 48) as nat
    }
}

/// The text without a plus sign at its front.
pub open spec fn unsigned_part(text: Seq<u8>) -> Seq<u8> {
    if text.len() > 0 && text[0] == 43 {
        text.skip(1)
    } else {
        text
    }
}

/// The port that a text spells: decimal digits, at least one, after at most
/// one plus sign, with a value of no more than 65535. Any other text spells
/// no port.
pub open spec fn port_of(text: Seq<u8>) -> Option<u16> {
    let digits = unsigned_part(text);
    if digits.len() > 0 && all_digits(digits) && decimal(digits) <= u16::MAX {
        Some(decimal(digits) as u16)
    } else {
        None
    }
}

/// The port on which the relay listens: the default where nothing is
/// configured, the configured port where the text spells one, and the
/// fallback where it does not.
pub open spec fn chosen_port(configured: Option<Seq<u8>>) -> u16 {
    match configured {
        None => DEFAULT_PORT,
        Some(text) => match port_of(text) {
            Some(port) => port,
            None => FALLBACK_PORT,
        },
    }
}

/// Digits spell no less than what the digits before any point of them spell.
proof fn decimal_grows(digits: Seq<u8>, n: int)
    requires
        0 <= n <= digits.len(),
        all_digits(digits),
    ensures
        decimal(digits.take(n)) <= decimal(digits),
    decreases digits.len() - n,
{
    if n < digits.len() {
        decimal_grows(digits, n + 1);
        assert(digits.take(n + 1).drop_last() =~= digits.take(n));
        assert(is_digit(digits[n]));
    } else {
        assert(digits.take(n) =~= digits);
    }
}

/// Reads a port from a text.
pub fn parse_port(text: &str) -> (port: Option<u16>)
    ensures
        port == port_of(text.spec_bytes()),
{
    let bytes = text.as_bytes();
    let start: usize = if bytes.len() > 0 && bytes[0] == 43 {
        1
    } else {
        0
    };
    if start == bytes.len() {
        return None;
    }
    let ghost digits = unsigned_part(bytes@);
    assert(digits =~= bytes@.skip(start as int));
    let mut value: u32 = 0;
    let mut i: usize = start;
    assert(digits.take(0) =~= Seq::<u8>::empty());
    while i < bytes.len()
        invariant
            start <= i <= bytes.len(),
            bytes@ == text.spec_bytes(),
            digits == unsigned_part(bytes@),
            digits == bytes@.skip(start as int),
            digits.len() > 0,
            forall|k: int| 0 <= k < i - start ==> is_digit(#[trigger] digits[k]),
            value == decimal(digits.take(i - start)),
            value <= u16::MAX,
        decreases bytes.len() - i,
    {
        let byte = bytes[i];
        if byte < 48 || byte > 57 {
            assert(!is_digit(digits[i - start]));
            return None;
        }
        let ghost before = digits.take(i - start);
        let ghost now = digits.take(i - start + 1);
        assert(now.drop_last() =~= before);
        assert(now.last() == byte);
        assert(decimal(now) == 10 * decimal(before) + (byte - 48));
        value = 10 * value + (byte - 48) as u32;
        if value > 65535 {
            proof {
                if all_digits(digits) {
                    decimal_grows(digits, i - start + 1);
                }
            }
            return None;
        }
        i += 1;
    }
    assert(digits.take(i - start) =~= digits);
    Some(value as u16)
}

/// The port on which the relay listens.
pub fn listen_port(configured: Option<&str>) -> (port: u16)
    ensures
        port == chosen_port(
            match configured {
                Some(text) => Some(text.spec_bytes()),
                None => None,
            },
        ),
{
    match configured {
        None => DEFAULT_PORT,
        Some(text) => match parse_port(text) {
            Some(port) => port,
            None => FALLBACK_PORT,
        },
    }
}

/// The address on which the relay listens: the loopback address on the
/// developer's machine, every address on a hosting platform.
pub fn listen_host(mode: Mode) -> (host: [u8; 4])
    ensures
        host@ == match mode {
            Mode::Local => seq![127u8, 0u8, 0u8, 1u8],
            Mode::Hosted => seq![0u8, 0u8, 0u8, 0u8],
        },
{
    match mode {
        Mode::Local => {
            let host: [u8; 4] = [127, 0, 0, 1];
            assert(host@ =~= seq![127u8, 0u8, 0u8, 1u8]);
            host
        },
        Mode::Hosted => {
            let host: [u8; 4] = [0, 0, 0, 0];
            assert(host@ =~= seq![0u8, 0u8, 0u8, 0u8]);
            host
        },
    }
}

/// The origin from which browsers may reach the relay.
pub fn allowed_origin(mode: Mode) -> (origin: &'static str)
    ensures
        origin@ == match mode {
            Mode::Local => "https://localhost:5173"@,
            Mode::Hosted => "https://matchboy.stevenhuyn.com"@,
        },
{
    match mode {
        Mode::Local => "https://localhost:5173",
        Mode::Hosted => "https://matchboy.stevenhuyn.com",
    }
}

/// The mode in which the relay runs: hosted exactly where the platform has
/// announced itself.
pub fn mode_of(platform_announced: bool) -> (mode: Mode)
    ensures
        mode == if platform_announced {
            Mode::Hosted
        } else {
            Mode::Local
        },
{
    if platform_announced {
        Mode::Hosted
    } else {
        Mode::Local
    }
}

/// The URL under which the bridge finds the relay: the configured one, or
/// that of a relay on the same machine.
pub fn relay_url(configured: Option<String>) -> (url: String)
    ensures
        url@ == match configured {
            Some(text) => text@,
            None => "ws://localhost:3536/"@,
        },
{
    match configured {
        Some(text) => text,
        None => String::from_str("ws://localhost:3536/"),
    }
}

} // verus!
