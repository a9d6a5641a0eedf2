//! Reading the wire format back.
//!
//! The functions of this module say how the bytes of an encoding are read
//! from left to right. What they read is exactly what
//! [`encoding`](crate::wire::encoding) wrote: the two lemmas at the end of
//! the module state it.

use vstd::prelude::*;
use vstd::utf8::{
    decode_utf8, decode_utf8_encode_utf8, encode_utf8, encode_utf8_decode_utf8,
    encode_utf8_valid_utf8, is_ascii_chars_encode_utf8, valid_utf8,
};
use crate::payload::{MessageView, PayloadView, PeersView};
use crate::wire::{
    encoding, escape, escape_byte, following, hex_digit, list, quoted, BACKSLASH, CLOSE, COMMA,
    LIST_CLOSE, LIST_OPEN, MESSAGE_MIDDLE, MESSAGE_OPEN, PEERS_MIDDLE, PEERS_OPEN, QUOTE,
};

verus! {

/// Whether `input` holds `pattern` at position `i`.
pub open spec fn holds_at(input: Seq<u8>, i: int, pattern: Seq<u8>) -> bool {
    0 <= i && i + pattern.len() <= input.len() && input.subrange(i, i + pattern.len())
        =~= pattern
}

/// Whether `c` is a hexadecimal digit in lower case.
pub open spec fn is_hex_digit(c: u8) -> bool {
    (0x30 <= c && c <= 0x39) || (0x61 <= c && c <= 0x66)
}

/// The number that the hexadecimal digit `c` stands for.
pub open spec fn hex_value(c: u8) -> u8 {
    if c <= 0x39 {
        (c - 0x30) as u8
    } else {
        (c - 0x57) as u8
    }
}

/// The byte that the escape at `i` stands for, with the length of the
/// escape. Only the escapes that [`escape_byte`] writes are read.
pub open spec fn escaped_at(input: Seq<u8>, i: int) -> Option<(u8, int)> {
    if !(0 <= i && i + 1 < input.len()) {
        None
    } else {
        let c = input[i + 1];
        if c == QUOTE || c == BACKSLASH {
            Some((c, 2int))
        } else if c == 0x62 {
            Some((0x08u8, 2int))
        } else if c == 0x74 {
            Some((0x09u8, 2int))
        } else if c == 0x6e {
            Some((0x0au8, 2int))
        } else if c == 0x66 {
            Some((0x0cu8, 2int))
        } else if c == 0x72 {
            Some((0x0du8, 2int))
        } else if c == 0x75 && i + 5 < input.len() && input[i + 2] == 0x30 && input[i + 3]
            == 0x30 && (input[i + 4] == 0x30 || input[i + 4] == 0x31) && is_hex_digit(
            input[i + 5],
        ) {
            let b = ((input[i + 4] - 0x30) * 16 + hex_value(input[i + 5])) as u8;
            if b == 0x08 || b == 0x09 || b == 0x0a || b == 0x0c || b == 0x0d {
                None
            } else {
                Some((b, 6int))
            }
        } else {
            None
        }
    }
}

/// Reads the bytes of a text from `i` up to the closing quote, after
/// `read`. Gives all the bytes of the text and the position behind the
/// quote.
pub open spec fn text_from(input: Seq<u8>, i: int, read: Seq<u8>) -> Option<(Seq<u8>, int)>
    decreases input.len() - i,
{
    if !(0 <= i < input.len()) {
        None
    } else if input[i] == QUOTE {
        Some((read, i + 1))
    } else if input[i] == BACKSLASH {
        match escaped_at(input, i) {
            Some((b, n)) => if n > 0 {
                text_from(input, i + n, read.push(b))
            } else {
                None
            },
            None => None,
        }
    } else if input[i] < 0x20 {
        None
    } else {
        text_from(input, i + 1, read.push(input[i]))
    }
}

/// Reads a text between quotes at `i`.
pub open spec fn quoted_at(input: Seq<u8>, i: int) -> Option<(Seq<char>, int)> {
    if 0 <= i < input.len() && input[i] == QUOTE {
        match text_from(input, i + 1, Seq::empty()) {
            Some((raw, end)) => if valid_utf8(raw) {
                Some((decode_utf8(raw), end))
            } else {
                None
            },
            None => None,
        }
    } else {
        None
    }
}

/// Reads the rest of a list from `i`, after the texts `read`: texts with
/// a comma before each, then the closing bracket.
pub open spec fn following_from(input: Seq<u8>, i: int, read: Seq<Seq<char>>) -> Option<
    (Seq<Seq<char>>, int),
>
    decreases input.len() - i,
{
    if !(0 <= i < input.len()) {
        None
    } else if input[i] == LIST_CLOSE {
        Some((read, i + 1))
    } else if input[i] == COMMA {
        match quoted_at(input, i + 1) {
            Some((text, end)) => if i < end <= input.len() {
                following_from(input, end, read.push(text))
            } else {
                None
            },
            None => None,
        }
    } else {
        None
    }
}

/// Reads a list of texts at `i`.
pub open spec fn list_at(input: Seq<u8>, i: int) -> Option<(Seq<Seq<char>>, int)> {
    if 0 <= i && i + 1 < input.len() && input[i] == LIST_OPEN {
        if input[i + 1] == LIST_CLOSE {
            Some((Seq::empty(), i + 2))
        } else {
            match quoted_at(input, i + 1) {
                Some((text, end)) => following_from(input, end, seq![text]),
                None => None,
            }
        }
    } else {
        None
    }
}

/// Reads an announcement of peers whose opening was read.
pub open spec fn peers_at(input: Seq<u8>, i: int) -> Option<PayloadView> {
    match list_at(input, i) {
        Some((reachable_peers, middle)) => if holds_at(input, middle, encode_utf8(PEERS_MIDDLE@)) {
            match list_at(input, middle + encode_utf8(PEERS_MIDDLE@).len()) {
                Some((disconnected_peers, close)) => if holds_at(
                    input,
                    close,
                    encode_utf8(CLOSE@),
                ) && close + encode_utf8(CLOSE@).len() == input.len() {
                    Some(PayloadView::Peers(PeersView { reachable_peers, disconnected_peers }))
                } else {
                    None
                },
                None => None,
            }
        } else {
            None
        },
        None => None,
    }
}

/// Reads a directed message whose opening was read.
pub open spec fn message_at(input: Seq<u8>, i: int) -> Option<PayloadView> {
    match quoted_at(input, i) {
        Some((recipient, middle)) => if holds_at(input, middle, encode_utf8(MESSAGE_MIDDLE@)) {
            match quoted_at(input, middle + encode_utf8(MESSAGE_MIDDLE@).len()) {
                Some((message, close)) => if holds_at(input, close, encode_utf8(CLOSE@)) && close
                    + encode_utf8(CLOSE@).len() == input.len() {
                    Some(PayloadView::Message(MessageView { recipient, message }))
                } else {
                    None
                },
                None => None,
            }
        } else {
            None
        },
        None => None,
    }
}

/// The payload that `input` is read as, if it is read to its end.
pub open spec fn parsed(input: Seq<u8>) -> Option<PayloadView> {
    if holds_at(input, 0, encode_utf8(PEERS_OPEN@)) {
        peers_at(input, encode_utf8(PEERS_OPEN@).len() as int)
    } else if holds_at(input, 0, encode_utf8(MESSAGE_OPEN@)) {
        message_at(input, encode_utf8(MESSAGE_OPEN@).len() as int)
    } else {
        None
    }
}

/// A pattern made of two parts is held where the first part is held and
/// the second part follows it.
pub proof fn lemma_holds_concat(input: Seq<u8>, i: int, a: Seq<u8>, b: Seq<u8>)
    ensures
        holds_at(input, i, a + b) <==> holds_at(input, i, a) && holds_at(input, i + a.len(), b),
{
    if holds_at(input, i, a + b) {
        let part = input.subrange(i, i + (a + b).len());
        assert(input.subrange(i, i + a.len()) =~= part.subrange(0, a.len() as int));
        assert(input.subrange(i + a.len(), i + a.len() + b.len()) =~= part.subrange(
            a.len() as int,
            (a + b).len() as int,
        ));
        assert((a + b).subrange(0, a.len() as int) =~= a);
        assert((a + b).subrange(a.len() as int, (a + b).len() as int) =~= b);
    }
    if holds_at(input, i, a) && holds_at(input, i + a.len(), b) {
        assert(input.subrange(i, i + (a + b).len()) =~= input.subrange(i, i + a.len())
            + input.subrange(i + a.len(), i + a.len() + b.len()));
    }
}

/// An escape that is read is the escape of the byte it is read as.
proof fn lemma_escaped_sound(input: Seq<u8>, i: int)
    requires
        0 <= i < input.len(),
        input[i] == BACKSLASH,
        escaped_at(input, i) is Some,
    ensures
        ({
            let (b, n) = escaped_at(input, i).unwrap();
            n == escape_byte(b).len() && holds_at(input, i, escape_byte(b))
        }),
{
    let (b, n) = escaped_at(input, i).unwrap();
    let c = input[i + 1];
    if c == 0x75 {
        let high = input[i + 4];
        let low = input[i + 5];
        assert(b == (high - 0x30) * 16 + hex_value(low));
        assert(b / 16 == high - 0x30);
        assert(b % 16 == hex_value(low));
        assert(hex_digit(b / 16) == high);
        assert(hex_digit(b % 16) == low);
    }
    assert(input.subrange(i, i + n) =~= escape_byte(b));
}

/// The escape of a byte is read as that byte; a byte that stands for
/// itself is neither a quote nor a backslash nor a control character.
proof fn lemma_escaped_complete(input: Seq<u8>, i: int, b: u8)
    requires
        holds_at(input, i, escape_byte(b)),
    ensures
        input[i] != QUOTE,
        escape_byte(b).len() == 1 ==> input[i] == b && b != BACKSLASH && b >= 0x20,
        escape_byte(b).len() > 1 ==> input[i] == BACKSLASH && escaped_at(input, i) == Some(
            (b, escape_byte(b).len() as int),
        ),
{
    let e = escape_byte(b);
    let part = input.subrange(i, i + e.len());
    assert(part[0] == e[0]);
    if e.len() > 1 {
        assert(part[1] == e[1]);
        if e.len() > 2 {
            assert(part[2] == e[2]);
            assert(part[3] == e[3]);
            assert(part[4] == e[4]);
            assert(part[5] == e[5]);
            assert(b < 0x20);
            assert(b / 16 == 0 || b / 16 == 1);
            assert(hex_value(hex_digit(b % 16)) == b % 16);
            assert(is_hex_digit(hex_digit(b % 16)));
            assert(b == (b / 16) * 16 + b % 16);
        }
    }
}

/// What is read as a text is the escape of that text, up to the quote.
proof fn lemma_text_sound(input: Seq<u8>, i: int, read: Seq<u8>)
    requires
        text_from(input, i, read) is Some,
    ensures
        ({
            let (raw, end) = text_from(input, i, read).unwrap();
            let tail = raw.skip(read.len() as int);
            &&& read.len() <= raw.len()
            &&& raw.take(read.len() as int) =~= read
            &&& holds_at(input, i, escape(tail) + seq![QUOTE])
            &&& end == i + escape(tail).len() + 1
        }),
    decreases input.len() - i,
{
    let (raw, end) = text_from(input, i, read).unwrap();
    let tail = raw.skip(read.len() as int);
    if input[i] == QUOTE {
        assert(tail =~= Seq::<u8>::empty());
        assert(escape(tail) + seq![QUOTE] =~= seq![QUOTE]);
    } else {
        let (b, n) = if input[i] == BACKSLASH {
            escaped_at(input, i).unwrap()
        } else {
            (input[i], 1int)
        };
        if input[i] == BACKSLASH {
            lemma_escaped_sound(input, i);
        } else {
            assert(input.subrange(i, i + 1) =~= escape_byte(b));
        }
        lemma_text_sound(input, i + n, read.push(b));
        let shorter = raw.skip(read.len() + 1 as int);
        assert(raw.take(read.len() + 1 as int)[read.len() as int] == b);
        assert(raw.take(read.len() as int) =~= raw.take(read.len() + 1 as int).take(read.len() as int));
        assert(tail[0] == b);
        assert(tail.drop_first() =~= shorter);
        assert(escape(tail) + seq![QUOTE] =~= escape_byte(b) + (escape(shorter) + seq![QUOTE]));
        lemma_holds_concat(input, i, escape_byte(b), escape(shorter) + seq![QUOTE]);
    }
}

/// The escape of a text, up to the quote, is read as that text.
proof fn lemma_text_complete(input: Seq<u8>, i: int, read: Seq<u8>, raw: Seq<u8>)
    requires
        holds_at(input, i, escape(raw) + seq![QUOTE]),
    ensures
        text_from(input, i, read) == Some((read + raw, i + escape(raw).len() + 1)),
    decreases raw.len(),
{
    if raw.len() == 0 {
        assert(input.subrange(i, i + 1)[0] == QUOTE);
        assert(read + raw =~= read);
    } else {
        let b = raw[0];
        let rest = raw.drop_first();
        assert(escape(raw) + seq![QUOTE] =~= escape_byte(b) + (escape(rest) + seq![QUOTE]));
        lemma_holds_concat(input, i, escape_byte(b), escape(rest) + seq![QUOTE]);
        lemma_escaped_complete(input, i, b);
        lemma_text_complete(input, i + escape_byte(b).len(), read.push(b), rest);
        assert(read.push(b) + rest =~= read + raw);
    }
}

/// What is read as a quoted text is that text between quotes.
proof fn lemma_quoted_sound(input: Seq<u8>, i: int)
    requires
        quoted_at(input, i) is Some,
    ensures
        ({
            let (text, end) = quoted_at(input, i).unwrap();
            holds_at(input, i, quoted(text)) && end == i + quoted(text).len()
        }),
{
    let (text, end) = quoted_at(input, i).unwrap();
    let (raw, _) = text_from(input, i + 1, Seq::empty()).unwrap();
    lemma_text_sound(input, i + 1, Seq::empty());
    assert(raw.skip(0) =~= raw);
    decode_utf8_encode_utf8(raw);
    assert(input.subrange(i, i + 1) =~= seq![QUOTE]);
    lemma_holds_concat(input, i, seq![QUOTE], escape(raw) + seq![QUOTE]);
    assert(quoted(text) =~= seq![QUOTE] + (escape(raw) + seq![QUOTE]));
}

/// A text between quotes is read as that text.
proof fn lemma_quoted_complete(input: Seq<u8>, i: int, text: Seq<char>)
    requires
        holds_at(input, i, quoted(text)),
    ensures
        quoted_at(input, i) == Some((text, i + quoted(text).len())),
{
    let raw = encode_utf8(text);
    assert(quoted(text) =~= seq![QUOTE] + (escape(raw) + seq![QUOTE]));
    lemma_holds_concat(input, i, seq![QUOTE], escape(raw) + seq![QUOTE]);
    assert(input.subrange(i, i + 1)[0] == QUOTE);
    lemma_text_complete(input, i + 1, Seq::empty(), raw);
    assert(Seq::<u8>::empty() + raw =~= raw);
    encode_utf8_valid_utf8(text);
    encode_utf8_decode_utf8(text);
}

/// What is read as the rest of a list is the texts that follow, up to the
/// closing bracket.
proof fn lemma_following_sound(input: Seq<u8>, i: int, read: Seq<Seq<char>>)
    requires
        following_from(input, i, read) is Some,
    ensures
        ({
            let (all, end) = following_from(input, i, read).unwrap();
            let tail = all.skip(read.len() as int);
            &&& read.len() <= all.len()
            &&& all.take(read.len() as int) =~= read
            &&& holds_at(input, i, following(tail) + seq![LIST_CLOSE])
            &&& end == i + following(tail).len() + 1
        }),
    decreases input.len() - i,
{
    let (all, end) = following_from(input, i, read).unwrap();
    let tail = all.skip(read.len() as int);
    if input[i] == LIST_CLOSE {
        assert(tail =~= Seq::<Seq<char>>::empty());
        assert(following(tail) + seq![LIST_CLOSE] =~= seq![LIST_CLOSE]);
    } else {
        let (text, next) = quoted_at(input, i + 1).unwrap();
        lemma_quoted_sound(input, i + 1);
        lemma_following_sound(input, next, read.push(text));
        let shorter = all.skip(read.len() + 1 as int);
        assert(all.take(read.len() + 1 as int)[read.len() as int] == text);
        assert(all.take(read.len() as int) =~= all.take(read.len() + 1 as int).take(read.len() as int));
        assert(tail[0] == text);
        assert(tail.drop_first() =~= shorter);
        assert(input.subrange(i, i + 1) =~= seq![COMMA]);
        let rest = following(shorter) + seq![LIST_CLOSE];
        lemma_holds_concat(input, i + 1, quoted(text), rest);
        lemma_holds_concat(input, i, seq![COMMA], quoted(text) + rest);
        assert(following(tail) + seq![LIST_CLOSE] =~= seq![COMMA] + (quoted(text) + rest));
    }
}

/// Texts that follow, up to the closing bracket, are read as those texts.
proof fn lemma_following_complete(
    input: Seq<u8>,
    i: int,
    read: Seq<Seq<char>>,
    rest: Seq<Seq<char>>,
)
    requires
        holds_at(input, i, following(rest) + seq![LIST_CLOSE]),
    ensures
        following_from(input, i, read) == Some((read + rest, i + following(rest).len() + 1)),
    decreases rest.len(),
{
    if rest.len() == 0 {
        assert(input.subrange(i, i + 1)[0] == LIST_CLOSE);
        assert(read + rest =~= read);
    } else {
        let text = rest[0];
        let after = following(rest.drop_first()) + seq![LIST_CLOSE];
        assert(following(rest) + seq![LIST_CLOSE] =~= seq![COMMA] + (quoted(text) + after));
        lemma_holds_concat(input, i, seq![COMMA], quoted(text) + after);
        lemma_holds_concat(input, i + 1, quoted(text), after);
        assert(input.subrange(i, i + 1)[0] == COMMA);
        lemma_quoted_complete(input, i + 1, text);
        lemma_following_complete(
            input,
            i + 1 + quoted(text).len(),
            read.push(text),
            rest.drop_first(),
        );
        assert(read.push(text) + rest.drop_first() =~= read + rest);
    }
}

/// What is read as a list is the list of the texts read.
proof fn lemma_list_sound(input: Seq<u8>, i: int)
    requires
        list_at(input, i) is Some,
    ensures
        ({
            let (all, end) = list_at(input, i).unwrap();
            holds_at(input, i, list(all)) && end == i + list(all).len()
        }),
{
    let (all, end) = list_at(input, i).unwrap();
    if input[i + 1] == LIST_CLOSE {
        assert(input.subrange(i, i + 2) =~= seq![LIST_OPEN, LIST_CLOSE]);
    } else {
        let (text, next) = quoted_at(input, i + 1).unwrap();
        lemma_quoted_sound(input, i + 1);
        lemma_following_sound(input, next, seq![text]);
        assert(all.take(1)[0] == text);
        assert(all.skip(1) =~= all.drop_first());
        let rest = following(all.drop_first()) + seq![LIST_CLOSE];
        assert(input.subrange(i, i + 1) =~= seq![LIST_OPEN]);
        lemma_holds_concat(input, i + 1, quoted(text), rest);
        lemma_holds_concat(input, i, seq![LIST_OPEN], quoted(text) + rest);
        assert(list(all) =~= seq![LIST_OPEN] + (quoted(text) + rest));
    }
}

/// A list of texts is read as those texts.
proof fn lemma_list_complete(input: Seq<u8>, i: int, all: Seq<Seq<char>>)
    requires
        holds_at(input, i, list(all)),
    ensures
        list_at(input, i) == Some((all, i + list(all).len())),
{
    let part = input.subrange(i, i + list(all).len());
    assert(part[0] == LIST_OPEN);
    if all.len() == 0 {
        assert(part[1] == LIST_CLOSE);
        assert(all =~= Seq::<Seq<char>>::empty());
    } else {
        let text = all[0];
        let rest = following(all.drop_first()) + seq![LIST_CLOSE];
        assert(list(all) =~= seq![LIST_OPEN] + (quoted(text) + rest));
        lemma_holds_concat(input, i, seq![LIST_OPEN], quoted(text) + rest);
        lemma_holds_concat(input, i + 1, quoted(text), rest);
        assert(part[1] == quoted(text)[0]);
        lemma_quoted_complete(input, i + 1, text);
        lemma_following_complete(input, i + 1 + quoted(text).len(), seq![text], all.drop_first());
        assert(seq![text] + all.drop_first() =~= all);
    }
}

/// The bytes of the fixed parts of an encoding.
proof fn lemma_fixed_parts()
    ensures
        encode_utf8(PEERS_OPEN@).len() == 28,
        encode_utf8(MESSAGE_OPEN@).len() == 24,
        encode_utf8(PEERS_OPEN@)[2] == 0x50,
        encode_utf8(MESSAGE_OPEN@)[2] == 0x4d,
{
    reveal_strlit("{\"Peers\":{\"reachable_peers\":");
    reveal_strlit("{\"Message\":{\"recipient\":");
    is_ascii_chars_encode_utf8(PEERS_OPEN@);
    is_ascii_chars_encode_utf8(MESSAGE_OPEN@);
}

/// Five parts, one behind the other, are held where their whole is held.
proof fn lemma_holds_five(
    input: Seq<u8>,
    a: Seq<u8>,
    b: Seq<u8>,
    c: Seq<u8>,
    d: Seq<u8>,
    e: Seq<u8>,
)
    ensures
        holds_at(input, 0, a + b + c + d + e) <==> {
            &&& holds_at(input, 0, a)
            &&& holds_at(input, a.len() as int, b)
            &&& holds_at(input, (a.len() + b.len()) as int, c)
            &&& holds_at(input, (a.len() + b.len() + c.len()) as int, d)
            &&& holds_at(input, (a.len() + b.len() + c.len() + d.len()) as int, e)
        },
{
    lemma_holds_concat(input, 0, a + b + c + d, e);
    lemma_holds_concat(input, 0, a + b + c, d);
    lemma_holds_concat(input, 0, a + b, c);
    lemma_holds_concat(input, 0, a, b);
}

/// Whatever is read as a payload is the encoding of that payload.
pub proof fn lemma_parsed_is_encoded(input: Seq<u8>)
    requires
        parsed(input) is Some,
    ensures
        encoding(parsed(input).unwrap()) == input,
{
    let payload = parsed(input).unwrap();
    let close = encode_utf8(CLOSE@);
    if holds_at(input, 0, encode_utf8(PEERS_OPEN@)) {
        let open = encode_utf8(PEERS_OPEN@);
        let middle = encode_utf8(PEERS_MIDDLE@);
        let (first, at_middle) = list_at(input, open.len() as int).unwrap();
        lemma_list_sound(input, open.len() as int);
        let (second, at_close) = list_at(input, at_middle + middle.len()).unwrap();
        lemma_list_sound(input, at_middle + middle.len());
        lemma_holds_five(input, open, list(first), middle, list(second), close);
        assert(input.subrange(0, input.len() as int) =~= input);
    } else {
        let open = encode_utf8(MESSAGE_OPEN@);
        let middle = encode_utf8(MESSAGE_MIDDLE@);
        let (first, at_middle) = quoted_at(input, open.len() as int).unwrap();
        lemma_quoted_sound(input, open.len() as int);
        let (second, at_close) = quoted_at(input, at_middle + middle.len()).unwrap();
        lemma_quoted_sound(input, at_middle + middle.len());
        lemma_holds_five(input, open, quoted(first), middle, quoted(second), close);
        assert(input.subrange(0, input.len() as int) =~= input);
    }
}

/// The encoding of a payload is read as that payload.
pub proof fn lemma_encoded_is_parsed(payload: PayloadView)
    ensures
        parsed(encoding(payload)) == Some(payload),
{
    let input = encoding(payload);
    let close = encode_utf8(CLOSE@);
    assert(input.subrange(0, input.len() as int) =~= input);
    match payload {
        PayloadView::Peers(peers) => {
            let open = encode_utf8(PEERS_OPEN@);
            let middle = encode_utf8(PEERS_MIDDLE@);
            let first = list(peers.reachable_peers);
            let second = list(peers.disconnected_peers);
            lemma_holds_five(input, open, first, middle, second, close);
            lemma_list_complete(input, open.len() as int, peers.reachable_peers);
            lemma_list_complete(
                input,
                (open.len() + first.len() + middle.len()) as int,
                peers.disconnected_peers,
            );
        },
        PayloadView::Message(message) => {
            let open = encode_utf8(MESSAGE_OPEN@);
            let middle = encode_utf8(MESSAGE_MIDDLE@);
            let first = quoted(message.recipient);
            let second = quoted(message.message);
            lemma_holds_five(input, open, first, middle, second, close);
            lemma_quoted_complete(input, open.len() as int, message.recipient);
            lemma_quoted_complete(
                input,
                (open.len() + first.len() + middle.len()) as int,
                message.message,
            );
            lemma_fixed_parts();
            if holds_at(input, 0, encode_utf8(PEERS_OPEN@)) {
                assert(input.subrange(0, 28)[2] == encode_utf8(PEERS_OPEN@)[2]);
                assert(input.subrange(0, 24)[2] == encode_utf8(MESSAGE_OPEN@)[2]);
            }
        },
    }
}

/// No encoding begins with the encoding of another payload.
pub proof fn lemma_encoding_prefix_free(payload: PayloadView, other: PayloadView)
    requires
        holds_at(encoding(payload), 0, encoding(other)),
    ensures
        other == payload,
{
    let input = encoding(payload);
    let close = encode_utf8(CLOSE@);
    lemma_encoded_is_parsed(payload);
    lemma_fixed_parts();
    match other {
        PayloadView::Peers(peers) => {
            let open = encode_utf8(PEERS_OPEN@);
            let middle = encode_utf8(PEERS_MIDDLE@);
            let first = list(peers.reachable_peers);
            let second = list(peers.disconnected_peers);
            lemma_holds_concat(input, 0, open + first + middle + second, close);
            lemma_holds_concat(input, 0, open + first + middle, second);
            lemma_holds_concat(input, 0, open + first, middle);
            lemma_holds_concat(input, 0, open, first);
            lemma_list_complete(input, open.len() as int, peers.reachable_peers);
            lemma_list_complete(
                input,
                (open.len() + first.len() + middle.len()) as int,
                peers.disconnected_peers,
            );
        },
        PayloadView::Message(message) => {
            let open = encode_utf8(MESSAGE_OPEN@);
            let middle = encode_utf8(MESSAGE_MIDDLE@);
            let first = quoted(message.recipient);
            let second = quoted(message.message);
            lemma_holds_concat(input, 0, open + first + middle + second, close);
            lemma_holds_concat(input, 0, open + first + middle, second);
            lemma_holds_concat(input, 0, open + first, middle);
            lemma_holds_concat(input, 0, open, first);
            lemma_quoted_complete(input, open.len() as int, message.recipient);
            lemma_quoted_complete(
                input,
                (open.len() + first.len() + middle.len()) as int,
                message.message,
            );
            if holds_at(input, 0, encode_utf8(PEERS_OPEN@)) {
                assert(input.subrange(0, 28)[2] == encode_utf8(PEERS_OPEN@)[2]);
                assert(input.subrange(0, 24)[2] == encode_utf8(MESSAGE_OPEN@)[2]);
            }
        },
    }
}

} // verus!
