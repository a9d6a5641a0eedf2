use p2p_message::codec::{decode, encode, DecodeError};
use p2p_message::payload::{Message, Payload, Peers};

fn message(recipient: &str, message: &str) -> Payload {
    Payload::Message(Message { recipient: recipient.to_string(), message: message.to_string() })
}

fn peers(reachable: &[&str], disconnected: &[&str]) -> Payload {
    Payload::Peers(Peers {
        reachable_peers: reachable.iter().map(|s| s.to_string()).collect(),
        disconnected_peers: disconnected.iter().map(|s| s.to_string()).collect(),
    })
}

#[test]
fn message_has_its_exact_encoding() {
    let bytes = encode(&message("X", "hi"));
    assert_eq!(bytes, b"{\"Message\":{\"recipient\":\"X\",\"message\":\"hi\"}}".to_vec());
}

#[test]
fn peers_have_their_exact_encoding() {
    let bytes = encode(&peers(&["a", "b"], &[]));
    assert_eq!(
        bytes,
        b"{\"Peers\":{\"reachable_peers\":[\"a\",\"b\"],\"disconnected_peers\":[]}}".to_vec()
    );
    let bytes = encode(&peers(&[], &["c"]));
    assert_eq!(
        bytes,
        b"{\"Peers\":{\"reachable_peers\":[],\"disconnected_peers\":[\"c\"]}}".to_vec()
    );
}

#[test]
fn texts_are_escaped_as_json_strings() {
    let text = "quote \" backslash \\ newline \n tab \t bell \u{7} del \u{7f} snow \u{2603} \u{1F600}";
    let bytes = encode(&message(text, ""));
    let mut expected = b"{\"Message\":{\"recipient\":".to_vec();
    expected.extend_from_slice(&serde_json::to_vec(&text.to_string()).unwrap());
    expected.extend_from_slice(b",\"message\":\"\"}}");
    assert_eq!(bytes, expected);
}

#[test]
fn every_control_character_round_trips() {
    for code in 0u32..0x80 {
        let c = char::from_u32(code).unwrap();
        let text: String = [c, 'x', c].iter().collect();
        let bytes = encode(&message(&text, &text));
        let quoted = serde_json::to_vec(&text).unwrap();
        let mut expected = b"{\"Message\":{\"recipient\":".to_vec();
        expected.extend_from_slice(&quoted);
        expected.extend_from_slice(b",\"message\":");
        expected.extend_from_slice(&quoted);
        expected.extend_from_slice(b"}}");
        assert_eq!(bytes, expected);
        assert_eq!(decode(&bytes), Ok(message(&text, &text)));
    }
}

#[test]
fn encoding_is_json_with_the_kind_as_tag() {
    let bytes = encode(&peers(&["QmA", "QmB"], &["QmC"]));
    let value: serde_json::Value = serde_json::from_slice(&bytes).unwrap();
    let object = value.as_object().unwrap();
    assert_eq!(object.len(), 1);
    let fields = object.get("Peers").unwrap().as_object().unwrap();
    assert_eq!(fields.len(), 2);
    let reachable: Vec<&str> = fields
        .get("reachable_peers")
        .unwrap()
        .as_array()
        .unwrap()
        .iter()
        .map(|v| v.as_str().unwrap())
        .collect();
    assert_eq!(reachable, vec!["QmA", "QmB"]);
    let disconnected = fields.get("disconnected_peers").unwrap().as_array().unwrap();
    assert_eq!(disconnected.len(), 1);
    assert_eq!(disconnected[0].as_str(), Some("QmC"));

    let bytes = encode(&message("QmA", "hello"));
    let value: serde_json::Value = serde_json::from_slice(&bytes).unwrap();
    let fields = value.as_object().unwrap().get("Message").unwrap().as_object().unwrap();
    assert_eq!(fields.get("recipient").unwrap().as_str(), Some("QmA"));
    assert_eq!(fields.get("message").unwrap().as_str(), Some("hello"));
}

#[test]
fn decode_inverts_encode() {
    let samples = vec![
        message("X", "hi"),
        message("", ""),
        message("\"\\\"", "\u{0}\u{1f}\u{20}\r\n"),
        message("\u{e9}\u{2603}\u{1F600}", "\\u0041"),
        peers(&[], &[]),
        peers(&["a"], &[]),
        peers(&[], &["b"]),
        peers(&["a", "b", "c"], &["d", "e"]),
        peers(&["", "\"", ","], &["]", "[", "}}"]),
    ];
    for payload in samples {
        let bytes = encode(&payload);
        assert_eq!(decode(&bytes), Ok(payload));
    }
}

#[test]
fn truncated_input_is_malformed() {
    let samples = vec![message("X", "hi \n there"), peers(&["a", "b"], &["c"])];
    for payload in samples {
        let bytes = encode(&payload);
        for cut in 0..bytes.len() {
            assert_eq!(decode(&bytes[..cut]), Err(DecodeError::Malformed));
        }
    }
}

#[test]
fn garbage_is_malformed() {
    let samples: Vec<&[u8]> = vec![
        b"",
        b"{}",
        b"null",
        b"garbage",
        b"\xff\xfe\x00",
        b"{\"Message\":{\"recipient\":\"X\",\"message\":\"hi\"}} ",
        b" {\"Message\":{\"recipient\":\"X\",\"message\":\"hi\"}}",
        b"{\"Message\":{\"recipient\":\"X\",\"message\":\"hi\"}}}",
        b"{\"Message\":{\"recipient\":\"X\"}}",
        b"{\"Message\":{\"recipient\":\"X\",\"message\":7}}",
        b"{\"Message\":{\"recipient\":\"X\",\"message\":\"\xff\"}}",
        b"{\"Message\":{\"recipient\":\"X\",\"message\":\"\\x\"}}",
        b"{\"Message\":{\"recipient\":\"X\",\"message\":\"\\u0041\"}}",
        b"{\"Message\":{\"recipient\":\"X\",\"message\":\"\\u000A\"}}",
        b"{\"Message\":{\"recipient\":\"X\",\"message\":\"\\u000a\"}}",
        b"{\"Message\":{\"recipient\":\"X\",\"message\":\"\n\"}}",
        b"{\"Peers\":{\"reachable_peers\":[\"a\",],\"disconnected_peers\":[]}}",
        b"{\"Peers\":{\"reachable_peers\":[,\"a\"],\"disconnected_peers\":[]}}",
        b"{\"Peers\":{\"reachable_peers\":[\"a\" \"b\"],\"disconnected_peers\":[]}}",
        b"{\"Peers\":{\"reachable_peers\":[\"a\"]}}",
        b"{\"Peers\":{\"reachable_peers\":[\"a\"],\"disconnected_peers\":[}}",
    ];
    for bytes in samples {
        assert_eq!(decode(bytes), Err(DecodeError::Malformed));
    }
}

#[test]
fn unknown_kind_is_malformed() {
    assert_eq!(
        decode(b"{\"Ping\":{\"recipient\":\"X\",\"message\":\"hi\"}}"),
        Err(DecodeError::Malformed)
    );
    assert_eq!(decode(b"{\"peers\":{\"reachable_peers\":[],\"disconnected_peers\":[]}}"),
        Err(DecodeError::Malformed));
}

#[test]
fn escapes_written_by_encode_are_read() {
    let bytes = b"{\"Message\":{\"recipient\":\"\\u0000\\u001f\\b\\f\\n\\r\\t\\\"\\\\\",\"message\":\"\"}}";
    assert_eq!(decode(bytes), Ok(message("\u{0}\u{1f}\u{8}\u{c}\n\r\t\"\\", "")));
}

#[test]
fn a_copy_of_a_payload_equals_it() {
    let samples = vec![message("X", "hi"), peers(&["a", "b"], &["c"]), peers(&[], &[])];
    for payload in samples {
        let copy = payload.clone();
        assert_eq!(copy, payload);
        assert_eq!(encode(&copy), encode(&payload));
    }
}
