//! Encoding payloads for the wire, and decoding what arrives.

use vstd::prelude::*;
use vstd::utf8::{encode_utf8, encode_utf8_decode_utf8, valid_utf8};
use crate::parsing::{
    escaped_at, following_from, holds_at, lemma_encoded_is_parsed, lemma_encoding_prefix_free,
    lemma_parsed_is_encoded, list_at, message_at, peers_at, quoted_at, text_from,
};
use crate::payload::{texts, Message, Payload, PayloadView, Peers};
use crate::wire::{
    encoding, escape, escape_byte, following, hex_digit, list, quoted, lemma_escape_push,
    lemma_following_push, BACKSLASH, CLOSE, COMMA, LIST_CLOSE, LIST_OPEN, MESSAGE_MIDDLE,
    MESSAGE_OPEN, PEERS_MIDDLE, PEERS_OPEN, QUOTE,
};

verus! {

fn put(out: &mut Vec<u8>, bytes: &[u8])
    ensures
        final(out)@ == old(out)@ + bytes@,
{
    let mut i: usize = 0;
    while i < bytes.len()
        invariant
            i <= bytes@.len(),
            out@ == old(out)@ + bytes@.take(i as int),
        decreases bytes@.len() - i,
    {
        out.push(bytes[i]);
        assert(bytes@.take(i + 1) =~= bytes@.take(i as int).push(bytes@[i as int]));
        i = i + 1;
    }
    assert(bytes@.take(i as int) =~= bytes@);
}

fn hex(n: u8) -> (digit: u8)
    requires
        n < 16,
    ensures
        digit == hex_digit(n),
{
    if n < 10 {
        0x30 + n
    } else {
        0x57 + n
    }
}

fn put_escaped_byte(out: &mut Vec<u8>, b: u8)
    ensures
        final(out)@ == old(out)@ + escape_byte(b),
{
    if b == QUOTE || b == BACKSLASH {
        out.push(BACKSLASH);
        out.push(b);
    } else if b == 0x08 {
        out.push(BACKSLASH);
        out.push(0x62);
    } else if b == 0x09 {
        out.push(BACKSLASH);
        out.push(0x74);
    } else if b == 0x0a {
        out.push(BACKSLASH);
        out.push(0x6e);
    } else if b == 0x0c {
        out.push(BACKSLASH);
        out.push(0x66);
    } else if b == 0x0d {
        out.push(BACKSLASH);
        out.push(0x72);
    } else if b < 0x20 {
        out.push(BACKSLASH);
        out.push(0x75);
        out.push(0x30);
        out.push(0x30);
        out.push(hex(b / 16));
        out.push(hex(b % 16));
    } else {
        out.push(b);
    }
    assert(out@ =~= old(out)@ + escape_byte(b));
}

fn put_quoted(out: &mut Vec<u8>, text: &str)
    ensures
        final(out)@ == old(out)@ + quoted(text@),
{
    let bytes = text.as_bytes();
    out.push(QUOTE);
    let mut i: usize = 0;
    while i < bytes.len()
        invariant
            i <= bytes@.len(),
            out@ == old(out)@ + seq![QUOTE] + escape(bytes@.take(i as int)),
        decreases bytes@.len() - i,
    {
        put_escaped_byte(out, bytes[i]);
        proof {
            lemma_escape_push(bytes@.take(i as int), bytes@[i as int]);
            assert(bytes@.take(i + 1) =~= bytes@.take(i as int).push(bytes@[i as int]));
        }
        i = i + 1;
    }
    assert(bytes@.take(i as int) =~= bytes@);
    out.push(QUOTE);
    assert(out@ =~= old(out)@ + quoted(text@));
}

fn put_list(out: &mut Vec<u8>, items: &Vec<String>)
    ensures
        final(out)@ == old(out)@ + list(texts(items@)),
{
    out.push(LIST_OPEN);
    if items.len() > 0 {
        put_quoted(out, items[0].as_str());
        let ghost rest = texts(items@).drop_first();
        let mut i: usize = 1;
        proof {
            assert(rest.take(0) =~= Seq::<Seq<char>>::empty());
        }
        while i < items.len()
            invariant
                1 <= i <= items@.len(),
                rest == texts(items@).drop_first(),
                out@ == old(out)@ + seq![LIST_OPEN] + quoted(items@[0]@) + following(
                    rest.take(i - 1),
                ),
            decreases items@.len() - i,
        {
            out.push(COMMA);
            put_quoted(out, items[i].as_str());
            proof {
                lemma_following_push(rest.take(i - 1), items@[i as int]@);
                assert(rest.take(i as int) =~= rest.take(i - 1).push(items@[i as int]@));
            }
            i = i + 1;
        }
        assert(rest.take(i - 1) =~= rest);
    }
    out.push(LIST_CLOSE);
    assert(out@ =~= old(out)@ + list(texts(items@)));
}

/// The bytes that stand for `payload` on the wire.
pub fn encode(payload: &Payload) -> (bytes: Vec<u8>)
    ensures
        bytes@ == encoding(payload@),
{
    let mut out: Vec<u8> = Vec::new();
    match payload {
        Payload::Peers(peers) => {
            put(&mut out, PEERS_OPEN.as_bytes());
            put_list(&mut out, &peers.reachable_peers);
            put(&mut out, PEERS_MIDDLE.as_bytes());
            put_list(&mut out, &peers.disconnected_peers);
            put(&mut out, CLOSE.as_bytes());
        },
        Payload::Message(message) => {
            put(&mut out, MESSAGE_OPEN.as_bytes());
            put_quoted(&mut out, message.recipient.as_str());
            put(&mut out, MESSAGE_MIDDLE.as_bytes());
            put_quoted(&mut out, message.message.as_str());
            put(&mut out, CLOSE.as_bytes());
        },
    }
    assert(out@ =~= encoding(payload@));
    out
}

/// Why bytes were not decoded.
#[derive(Clone, Copy, Debug, PartialEq, Eq, Structural)]
pub enum DecodeError {
    /// The bytes are not the encoding of any payload.
    Malformed,
}

/// What `bytes` are decoded to: the payload they encode, if there is one.
pub open spec fn decoding(bytes: Seq<u8>) -> Result<PayloadView, DecodeError> {
    if exists|payload: PayloadView| encoding(payload) == bytes {
        Ok(choose|payload: PayloadView| encoding(payload) == bytes)
    } else {
        Err(DecodeError::Malformed)
    }
}

/// No two payloads have the same encoding.
pub proof fn lemma_encoding_injective(a: PayloadView, b: PayloadView)
    requires
        encoding(a) == encoding(b),
    ensures
        a == b,
{
    lemma_encoded_is_parsed(a);
    lemma_encoded_is_parsed(b);
}

/// Decoding the encoding of a payload gives the payload back.
pub proof fn lemma_decoding_inverts_encoding(payload: PayloadView)
    ensures
        decoding(encoding(payload)) == Ok::<PayloadView, DecodeError>(payload),
{
    let found = choose|found: PayloadView| encoding(found) == encoding(payload);
    lemma_encoding_injective(found, payload);
}

/// An encoding that is cut short is malformed.
pub proof fn lemma_truncated_is_malformed(payload: PayloadView, kept: int)
    requires
        0 <= kept < encoding(payload).len(),
    ensures
        decoding(encoding(payload).take(kept)) == Err::<PayloadView, DecodeError>(
            DecodeError::Malformed,
        ),
{
    let cut = encoding(payload).take(kept);
    if exists|other: PayloadView| encoding(other) == cut {
        let other = choose|other: PayloadView| encoding(other) == cut;
        assert(encoding(payload).subrange(0, kept) =~= cut);
        lemma_encoding_prefix_free(payload, other);
    }
}

/// `String::from_utf8`: the text whose UTF-8 form is `bytes`, or `None`
/// where `bytes` are not valid UTF-8.
#[verifier::external_body]
fn text_from_utf8(bytes: Vec<u8>) -> (text: Option<String>)
    ensures
        match text {
            Some(text) => encode_utf8(text@) == bytes@,
            None => !valid_utf8(bytes@),
        },
{
    match String::from_utf8(bytes) {
        Ok(text) => Some(text),
        Err(_) => None,
    }
}

/// The position behind `literal`, where `input` holds it at `i`.
fn skip(input: &[u8], i: usize, literal: &[u8]) -> (end: Option<usize>)
    ensures
        match end {
            Some(end) => holds_at(input@, i as int, literal@) && end == i + literal@.len(),
            None => !holds_at(input@, i as int, literal@),
        },
{
    if i > input.len() || literal.len() > input.len() - i {
        return None;
    }
    let mut k: usize = 0;
    while k < literal.len()
        invariant
            k <= literal@.len(),
            i + literal@.len() <= input@.len() <= usize::MAX,
            input@.subrange(i as int, i + k) == literal@.take(k as int),
        decreases literal@.len() - k,
    {
        if input[i + k] != literal[k] {
            assert(input@.subrange(i as int, i + literal@.len())[k as int] != literal@[k as int]);
            return None;
        }
        assert(input@.subrange(i as int, i + k + 1) =~= input@.subrange(i as int, i + k).push(
            input@[i + k],
        ));
        assert(literal@.take(k + 1) =~= literal@.take(k as int).push(literal@[k as int]));
        k = k + 1;
    }
    assert(literal@.take(k as int) =~= literal@);
    Some(i + k)
}

fn is_hex(c: u8) -> (hex: bool)
    ensures
        hex == crate::parsing::is_hex_digit(c),
{
    (0x30 <= c && c <= 0x39) || (0x61 <= c && c <= 0x66)
}

fn hex_number(c: u8) -> (n: u8)
    requires
        crate::parsing::is_hex_digit(c),
    ensures
        n == crate::parsing::hex_value(c),
{
    if c <= 0x39 {
        c - 0x30
    } else {
        c - 0x57
    }
}

fn read_escape(input: &[u8], i: usize) -> (escape: Option<(u8, usize)>)
    requires
        i < input@.len(),
    ensures
        match escape {
            Some((b, n)) => escaped_at(input@, i as int) == Some((b, n as int)),
            None => escaped_at(input@, i as int) is None,
        },
{
    if input.len() - i < 2 {
        return None;
    }
    let c = input[i + 1];
    if c == QUOTE || c == BACKSLASH {
        Some((c, 2))
    } else if c == 0x62 {
        Some((0x08, 2))
    } else if c == 0x74 {
        Some((0x09, 2))
    } else if c == 0x6e {
        Some((0x0a, 2))
    } else if c == 0x66 {
        Some((0x0c, 2))
    } else if c == 0x72 {
        Some((0x0d, 2))
    } else if c == 0x75 && input.len() - i > 5 && input[i + 2] == 0x30 && input[i + 3] == 0x30
        && (input[i + 4] == 0x30 || input[i + 4] == 0x31) && is_hex(input[i + 5]) {
        let b: u8 = (input[i + 4] - 0x30) * 16 + hex_number(input[i + 5]);
        if b == 0x08 || b == 0x09 || b == 0x0a || b == 0x0c || b == 0x0d {
            None
        } else {
            Some((b, 6))
        }
    } else {
        None
    }
}

fn read_quoted(input: &[u8], i: usize) -> (quoted: Option<(String, usize)>)
    ensures
        match quoted {
            Some((text, end)) => quoted_at(input@, i as int) == Some((text@, end as int)) && i
                < end <= input@.len(),
            None => quoted_at(input@, i as int) is None,
        },
{
    if i >= input.len() || input[i] != QUOTE {
        return None;
    }
    let mut raw: Vec<u8> = Vec::new();
    let mut k: usize = i + 1;
    loop
        invariant
            i < k <= input@.len(),
            input@[i as int] == QUOTE,
            text_from(input@, i + 1, Seq::empty()) == text_from(input@, k as int, raw@),
        decreases input@.len() - k,
    {
        if k >= input.len() {
            return None;
        }
        let c = input[k];
        if c == QUOTE {
            return match text_from_utf8(raw) {
                Some(text) => {
                    proof {
                        vstd::utf8::encode_utf8_valid_utf8(text@);
                        encode_utf8_decode_utf8(text@);
                    }
                    Some((text, k + 1))
                },
                None => None,
            };
        } else if c == BACKSLASH {
            match read_escape(input, k) {
                Some((b, n)) => {
                    raw.push(b);
                    k = k + n;
                },
                None => {
                    return None;
                },
            }
        } else if c < 0x20 {
            return None;
        } else {
            raw.push(c);
            k = k + 1;
        }
    }
}

fn read_list(input: &[u8], i: usize) -> (list: Option<(Vec<String>, usize)>)
    ensures
        match list {
            Some((items, end)) => list_at(input@, i as int) == Some((texts(items@), end as int))
                && end <= input@.len(),
            None => list_at(input@, i as int) is None,
        },
{
    if i >= input.len() || input.len() - i < 2 || input[i] != LIST_OPEN {
        return None;
    }
    let mut items: Vec<String> = Vec::new();
    if input[i + 1] == LIST_CLOSE {
        assert(texts(items@) =~= Seq::<Seq<char>>::empty());
        return Some((items, i + 2));
    }
    let mut k: usize = match read_quoted(input, i + 1) {
        Some((text, end)) => {
            items.push(text);
            end
        },
        None => {
            return None;
        },
    };
    assert(texts(items@) =~= seq![items@[0]@]);
    loop
        invariant
            i < k <= input@.len(),
            list_at(input@, i as int) == following_from(input@, k as int, texts(items@)),
        decreases input@.len() - k,
    {
        if k >= input.len() {
            return None;
        }
        let c = input[k];
        if c == LIST_CLOSE {
            return Some((items, k + 1));
        } else if c == COMMA {
            match read_quoted(input, k + 1) {
                Some((text, end)) => {
                    let ghost before = texts(items@);
                    items.push(text);
                    assert(texts(items@) =~= before.push(text@));
                    k = end;
                },
                None => {
                    return None;
                },
            }
        } else {
            return None;
        }
    }
}

fn read_peers(input: &[u8], i: usize) -> (payload: Option<Payload>)
    ensures
        match payload {
            Some(payload) => peers_at(input@, i as int) == Some(payload@),
            None => peers_at(input@, i as int) is None,
        },
{
    let (reachable_peers, middle) = match read_list(input, i) {
        Some(read) => read,
        None => {
            return None;
        },
    };
    let second = match skip(input, middle, PEERS_MIDDLE.as_bytes()) {
        Some(second) => second,
        None => {
            return None;
        },
    };
    let (disconnected_peers, close) = match read_list(input, second) {
        Some(read) => read,
        None => {
            return None;
        },
    };
    match skip(input, close, CLOSE.as_bytes()) {
        Some(end) => if end == input.len() {
            Some(Payload::Peers(Peers { reachable_peers, disconnected_peers }))
        } else {
            None
        },
        None => None,
    }
}

fn read_message(input: &[u8], i: usize) -> (payload: Option<Payload>)
    ensures
        match payload {
            Some(payload) => message_at(input@, i as int) == Some(payload@),
            None => message_at(input@, i as int) is None,
        },
{
    let (recipient, middle) = match read_quoted(input, i) {
        Some(read) => read,
        None => {
            return None;
        },
    };
    let second = match skip(input, middle, MESSAGE_MIDDLE.as_bytes()) {
        Some(second) => second,
        None => {
            return None;
        },
    };
    let (message, close) = match read_quoted(input, second) {
        Some(read) => read,
        None => {
            return None;
        },
    };
    match skip(input, close, CLOSE.as_bytes()) {
        Some(end) => if end == input.len() {
            Some(Payload::Message(Message { recipient, message }))
        } else {
            None
        },
        None => None,
    }
}

/// The payload that `bytes` encode.
///
/// Bytes that are not the encoding of a payload, be they cut short, of an
/// unknown kind or otherwise not as [`encode`] writes them, are
/// [`DecodeError::Malformed`].
pub fn decode(bytes: &[u8]) -> (decoded: Result<Payload, DecodeError>)
    ensures
        match decoded {
            Ok(payload) => encoding(payload@) == bytes@ && decoding(bytes@) == Ok::<
                PayloadView,
                DecodeError,
            >(payload@),
            Err(error) => error == DecodeError::Malformed && decoding(bytes@) == Err::<
                PayloadView,
                DecodeError,
            >(DecodeError::Malformed) && forall|payload: PayloadView|
                encoding(payload) != bytes@,
        },
{
    let read = match skip(bytes, 0, PEERS_OPEN.as_bytes()) {
        Some(first) => read_peers(bytes, first),
        None => match skip(bytes, 0, MESSAGE_OPEN.as_bytes()) {
            Some(first) => read_message(bytes, first),
            None => None,
        },
    };
    match read {
        Some(payload) => {
            proof {
                lemma_parsed_is_encoded(bytes@);
                lemma_decoding_inverts_encoding(payload@);
            }
            Ok(payload)
        },
        None => {
            proof {
                assert forall|payload: PayloadView| encoding(payload) != bytes@ by {
                    lemma_encoded_is_parsed(payload);
                }
            }
            Err(DecodeError::Malformed)
        },
    }
}

} // verus!
