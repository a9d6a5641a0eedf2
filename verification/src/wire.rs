//! The wire format of a payload.
//!
//! A payload travels as a JSON object with one member, named after its
//! kind, whose value is an object with the payload's fields:
//!
//! ```text
//! {"Peers":{"reachable_peers":["a","b"],"disconnected_peers":[]}}
//! {"Message":{"recipient":"a","message":"hi"}}
//! ```
//!
//! This module says which bytes stand for which payload. Every payload has
//! exactly one encoding: no white space, the members in this order, and in
//! a text only the escapes that JSON requires.

use vstd::prelude::*;
use vstd::utf8::encode_utf8;
use crate::payload::{PayloadView};

verus! {

/// The quote that opens and closes a text.
pub const QUOTE: u8 = 0x22;

/// The backslash that begins an escape.
pub const BACKSLASH: u8 = 0x5c;

/// The comma between the texts of a list.
pub const COMMA: u8 = 0x2c;

/// The bracket that opens a list.
pub const LIST_OPEN: u8 = 0x5b;

/// The bracket that closes a list.
pub const LIST_CLOSE: u8 = 0x5d;

/// What an announcement of peers begins with.
pub const PEERS_OPEN: &'static str = "{\"Peers\":{\"reachable_peers\":";

/// What stands between the two lists of an announcement.
pub const PEERS_MIDDLE: &'static str = ",\"disconnected_peers\":";

/// What a directed message begins with.
pub const MESSAGE_OPEN: &'static str = "{\"Message\":{\"recipient\":";

/// What stands between the recipient and the text of a directed message.
pub const MESSAGE_MIDDLE: &'static str = ",\"message\":";

/// What every encoding ends with.
pub const CLOSE: &'static str = "}}";

/// The lower-case hexadecimal digit for `n`, which is below 16.
pub open spec fn hex_digit(n: u8) -> u8 {
    if n < 10 {
        (0x30 + n) as u8
    } else {
        (0x57 + n) as u8
    }
}

/// How one byte of a text stands inside quotes: a quote, a backslash and
/// the control characters are escaped, every other byte stands for itself.
pub open spec fn escape_byte(b: u8) -> Seq<u8> {
    if b == QUOTE || b == BACKSLASH {
        seq![BACKSLASH, b]
    } else if b == 0x08 {
        seq![BACKSLASH, 0x62u8]
    } else if b == 0x09 {
        seq![BACKSLASH, 0x74u8]
    } else if b == 0x0a {
        seq![BACKSLASH, 0x6eu8]
    } else if b == 0x0c {
        seq![BACKSLASH, 0x66u8]
    } else if b == 0x0d {
        seq![BACKSLASH, 0x72u8]
    } else if b < 0x20 {
        seq![BACKSLASH, 0x75u8, 0x30u8, 0x30u8, hex_digit(b / 16), hex_digit(b % 16)]
    } else {
        seq![b]
    }
}

/// The bytes of a text, each escaped where it must be.
pub open spec fn escape(bytes: Seq<u8>) -> Seq<u8>
    decreases bytes.len(),
{
    if bytes.len() == 0 {
        Seq::empty()
    } else {
        escape_byte(bytes[0]) + escape(bytes.drop_first())
    }
}

/// A text between quotes.
pub open spec fn quoted(text: Seq<char>) -> Seq<u8> {
    seq![QUOTE] + escape(encode_utf8(text)) + seq![QUOTE]
}

/// Each text between quotes, with a comma before it.
pub open spec fn following(texts: Seq<Seq<char>>) -> Seq<u8>
    decreases texts.len(),
{
    if texts.len() == 0 {
        Seq::empty()
    } else {
        seq![COMMA] + quoted(texts[0]) + following(texts.drop_first())
    }
}

/// A list of texts: each between quotes, commas between them, the whole in
/// square brackets.
pub open spec fn list(texts: Seq<Seq<char>>) -> Seq<u8> {
    if texts.len() == 0 {
        seq![LIST_OPEN, LIST_CLOSE]
    } else {
        seq![LIST_OPEN] + quoted(texts[0]) + following(texts.drop_first()) + seq![LIST_CLOSE]
    }
}

/// The bytes that stand for `payload` on the wire.
pub open spec fn encoding(payload: PayloadView) -> Seq<u8> {
    match payload {
        PayloadView::Peers(peers) => encode_utf8(PEERS_OPEN@) + list(peers.reachable_peers)
            + encode_utf8(PEERS_MIDDLE@) + list(peers.disconnected_peers) + encode_utf8(CLOSE@),
        PayloadView::Message(message) => encode_utf8(MESSAGE_OPEN@) + quoted(message.recipient)
            + encode_utf8(MESSAGE_MIDDLE@) + quoted(message.message) + encode_utf8(CLOSE@),
    }
}

/// Escaping goes through a text byte by byte.
pub proof fn lemma_escape_concat(a: Seq<u8>, b: Seq<u8>)
    ensures
        escape(a + b) == escape(a) + escape(b),
    decreases a.len(),
{
    if a.len() == 0 {
        assert(a + b =~= b);
        assert(escape(a) + escape(b) =~= escape(b));
    } else {
        assert((a + b).drop_first() =~= a.drop_first() + b);
        lemma_escape_concat(a.drop_first(), b);
        assert(escape(a + b) =~= escape(a) + escape(b));
    }
}

/// Escaping a text with one more byte.
pub proof fn lemma_escape_push(a: Seq<u8>, b: u8)
    ensures
        escape(a.push(b)) == escape(a) + escape_byte(b),
{
    lemma_escape_concat(a, seq![b]);
    assert(a.push(b) =~= a + seq![b]);
    assert(escape(seq![b].drop_first()) =~= Seq::<u8>::empty());
    assert(escape(seq![b]) =~= escape_byte(b));
}

/// The texts of a list are written one after the other.
pub proof fn lemma_following_concat(a: Seq<Seq<char>>, b: Seq<Seq<char>>)
    ensures
        following(a + b) == following(a) + following(b),
    decreases a.len(),
{
    if a.len() == 0 {
        assert(a + b =~= b);
        assert(following(a) + following(b) =~= following(b));
    } else {
        assert((a + b).drop_first() =~= a.drop_first() + b);
        lemma_following_concat(a.drop_first(), b);
        assert(following(a + b) =~= following(a) + following(b));
    }
}

/// Writing a list with one more text.
pub proof fn lemma_following_push(a: Seq<Seq<char>>, text: Seq<char>)
    ensures
        following(a.push(text)) == following(a) + seq![COMMA] + quoted(text),
{
    lemma_following_concat(a, seq![text]);
    assert(a.push(text) =~= a + seq![text]);
    assert(following(seq![text].drop_first()) =~= Seq::<u8>::empty());
    assert(following(seq![text]) =~= seq![COMMA] + quoted(text));
    assert(following(a) + (seq![COMMA] + quoted(text)) =~= following(a) + seq![COMMA] + quoted(
        text,
    ));
}

} // verus!
