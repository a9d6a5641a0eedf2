//! The arguments a node is started with.
//!
//! ```text
//! p2p-message [port [bootnode [target_peer_id message]]]
//! ```
//!
//! With no argument the node listens on port 1234. An empty argument
//! counts as left out.

use vstd::prelude::*;
use vstd::string::is_ascii_spec_bytes;
use crate::payload::{texts, Message, MessageView};

verus! {

/// The port a node listens on where none is given.
pub const DEFAULT_PORT: u16 = 1234;

/// Whether `c` is a decimal digit.
pub open spec fn is_digit(c: char) -> bool {
    '0' <= c && c <= '9'
}

/// The number that a sequence of decimal digits stands for.
pub open spec fn digits_value(digits: Seq<char>) -> nat
    decreases digits.len(),
{
    if digits.len() == 0 {
        0
    } else {
        digits_value(digits.drop_last()) * 10 + (digits.last() as u32 - '0' as u32) as nat
    }
}

/// The number of 16 bits that `digits` stand for, if they are decimal
/// digits, at least one, and give such a number.
pub open spec fn number(digits: Seq<char>) -> Option<u16> {
    if digits.len() > 0 && (forall|i: int| 0 <= i < digits.len() ==> is_digit(#[trigger] digits[i]))
        && digits_value(digits) <= u16::MAX {
        Some(digits_value(digits) as u16)
    } else {
        None
    }
}

/// The port that `text` stands for: a number of 16 bits in decimal
/// digits, with or without a plus sign before them.
pub open spec fn port_number(text: Seq<char>) -> Option<u16> {
    if text.len() > 0 && text[0] == '+' {
        number(text.drop_first())
    } else {
        number(text)
    }
}

/// A number does not get smaller when digits are put behind it.
proof fn lemma_digits_grow(digits: Seq<char>, k: int)
    requires
        0 <= k <= digits.len(),
        forall|i: int| 0 <= i < digits.len() ==> is_digit(#[trigger] digits[i]),
    ensures
        digits_value(digits.take(k)) <= digits_value(digits),
    decreases digits.len() - k,
{
    if k == digits.len() {
        assert(digits.take(k) =~= digits);
    } else {
        lemma_digits_grow(digits, k + 1);
        assert(digits.take(k + 1).drop_last() =~= digits.take(k));
        assert(is_digit(digits[k]));
    }
}

/// Reads a port number.
pub fn parse_port(text: &str) -> (port: Option<u16>)
    ensures
        port == port_number(text@),
{
    let bytes = text.as_bytes();
    let n = bytes.len();
    if !text.is_ascii() {
        proof {
            let i = choose|i: int|
                0 <= i < text@.len() && !('\0' <= #[trigger] text@[i] <= '\u{7f}');
            if text@[0] == '+' {
                assert(!is_digit(text@.drop_first()[i - 1]));
            } else {
                assert(!is_digit(text@[i]));
            }
        }
        return None;
    }
    proof {
        is_ascii_spec_bytes(text);
    }
    let start: usize = if n > 0 && bytes[0] == 0x2b {
        1
    } else {
        0
    };
    let ghost digits = if start == 1 {
        text@.drop_first()
    } else {
        text@
    };
    assert(port_number(text@) == number(digits));
    if start == n {
        return None;
    }
    let mut value: u32 = 0;
    let mut i: usize = start;
    proof {
        assert(digits.take(0) =~= Seq::<char>::empty());
    }
    while i < n
        invariant
            start <= i <= n,
            n == bytes@.len(),
            port_number(text@) == number(digits),
            digits.len() == n - start,
            forall|k: int| 0 <= k < digits.len() ==> (#[trigger] digits[k]) as u8 == bytes@[k + start],
            forall|k: int| 0 <= k < digits.len() ==> '\0' <= (#[trigger] digits[k]) <= '\u{7f}',
            forall|k: int| 0 <= k < i - start ==> is_digit(#[trigger] digits[k]),
            value == digits_value(digits.take(i - start)),
            value <= u16::MAX,
        decreases n - i,
    {
        let c = bytes[i];
        if c < 0x30 || c > 0x39 {
            assert(!is_digit(digits[i - start]));
            return None;
        }
        let ghost before = digits.take(i - start);
        let ghost longer = digits.take(i - start + 1);
        proof {
            assert(longer.drop_last() =~= before);
            assert(longer.last() == digits[i - start]);
            assert(digits_value(longer) == value * 10 + (c - 0x30));
        }
        value = value * 10 + (c - 0x30) as u32;
        if value > 0xffff {
            proof {
                if forall|k: int| 0 <= k < digits.len() ==> is_digit(#[trigger] digits[k]) {
                    lemma_digits_grow(digits, i - start + 1);
                }
            }
            return None;
        }
        i = i + 1;
    }
    proof {
        assert(digits.take(i - start) =~= digits);
    }
    Some(value as u16)
}

/// The arguments of a node.
#[derive(Debug, PartialEq, Eq)]
pub struct AppArgs {
    /// The port to listen on.
    pub port: u16,
    /// The address of a node to connect to at start-up.
    pub bootnode: Option<String>,
    /// The peer that `message` is for.
    pub target_peer_id: Option<String>,
    /// A text to send once a session is open.
    pub message: Option<String>,
}

/// The arguments of a node, as plain values.
pub struct AppArgsView {
    pub port: u16,
    pub bootnode: Option<Seq<char>>,
    pub target_peer_id: Option<Seq<char>>,
    pub message: Option<Seq<char>>,
}

/// The text that `text` holds, if it holds one.
pub open spec fn optional_text(text: Option<String>) -> Option<Seq<char>> {
    match text {
        Some(text) => Some(text@),
        None => None,
    }
}

impl View for AppArgs {
    type V = AppArgsView;

    open spec fn view(&self) -> AppArgsView {
        AppArgsView {
            port: self.port,
            bootnode: optional_text(self.bootnode),
            target_peer_id: optional_text(self.target_peer_id),
            message: optional_text(self.message),
        }
    }
}

fn copy_optional(text: &Option<String>) -> (copy: Option<String>)
    ensures
        optional_text(copy) == optional_text(*text),
{
    match text {
        Some(text) => Some(text.clone()),
        None => None,
    }
}

impl Clone for AppArgs {
    fn clone(&self) -> (copy: AppArgs)
        ensures
            copy@ == self@,
    {
        AppArgs {
            port: self.port,
            bootnode: copy_optional(&self.bootnode),
            target_peer_id: copy_optional(&self.target_peer_id),
            message: copy_optional(&self.message),
        }
    }
}

impl Default for AppArgs {
    fn default() -> (args: AppArgs)
        ensures
            args@ == (AppArgsView {
                port: DEFAULT_PORT,
                bootnode: None,
                target_peer_id: None,
                message: None,
            }),
    {
        AppArgs { port: DEFAULT_PORT, bootnode: None, target_peer_id: None, message: None }
    }
}

/// The argument at `i`, unless it is left out or empty.
pub open spec fn argument(args: Seq<Seq<char>>, i: int) -> Option<Seq<char>> {
    if 0 <= i < args.len() && args[i].len() > 0 {
        Some(args[i])
    } else {
        None
    }
}

/// What the command line `args` asks for. The first word is the name of
/// the program. There is no answer where the port is not a port number.
pub open spec fn parsed_args(args: Seq<Seq<char>>) -> Option<AppArgsView> {
    let port = if args.len() > 1 {
        port_number(args[1])
    } else {
        Some(DEFAULT_PORT)
    };
    match port {
        Some(port) => Some(
            AppArgsView {
                port,
                bootnode: argument(args, 2),
                target_peer_id: argument(args, 3),
                message: argument(args, 4),
            },
        ),
        None => None,
    }
}

fn argument_at(args: &Vec<String>, i: usize) -> (text: Option<String>)
    ensures
        optional_text(text) == argument(texts(args@), i as int),
{
    if i < args.len() && !args[i].as_str().is_empty() {
        Some(args[i].clone())
    } else {
        None
    }
}

/// Reads the command line.
pub fn parse_args(args: &Vec<String>) -> (parsed: Option<AppArgs>)
    ensures
        match parsed {
            Some(parsed) => parsed_args(texts(args@)) == Some(parsed@),
            None => parsed_args(texts(args@)) is None,
        },
{
    let port = if args.len() > 1 {
        match parse_port(args[1].as_str()) {
            Some(port) => port,
            None => {
                return None;
            },
        }
    } else {
        DEFAULT_PORT
    };
    Some(
        AppArgs {
            port,
            bootnode: argument_at(args, 2),
            target_peer_id: argument_at(args, 3),
            message: argument_at(args, 4),
        },
    )
}

impl AppArgs {
    /// The message that waits for the first session: the text to send with
    /// the peer it is for, where both are given.
    pub open spec fn spec_pending_message(self) -> Option<MessageView> {
        match (self@.message, self@.target_peer_id) {
            (Some(message), Some(recipient)) => Some(MessageView { recipient, message }),
            _ => None,
        }
    }

    /// The message that waits for the first session, if the arguments give
    /// one.
    pub fn pending_message(&self) -> (pending: Option<Message>)
        ensures
            match pending {
                Some(pending) => self.spec_pending_message() == Some(pending@),
                None => self.spec_pending_message() is None,
            },
    {
        match (&self.message, &self.target_peer_id) {
            (Some(message), Some(recipient)) => Some(
                Message { recipient: recipient.clone(), message: message.clone() },
            ),
            _ => None,
        }
    }
}

} // verus!
