use quasar_server::codec::{decode_incoming, decode_outgoing, encode_incoming, encode_outgoing};
use quasar_server::protocol::{IncomingMessage, OutgoingMessage};
use quasar_server::text::u64_to_string;

#[test]
fn encode_generate_code_exact() {
    let text = encode_incoming(&IncomingMessage::GenerateCode);
    assert_eq!(text, "{\"type\":\"generate_code\"}");
}

#[test]
fn encode_data_exact() {
    let text = encode_incoming(&IncomingMessage::Data { content: String::from("hello") });
    assert_eq!(text, "{\"type\":\"data\",\"content\":\"hello\"}");
}

#[test]
fn incoming_generate_code_round_trip() {
    let text = encode_incoming(&IncomingMessage::GenerateCode);
    match decode_incoming(&text) {
        Some(IncomingMessage::GenerateCode) => {}
        _ => panic!("round trip lost the generate_code command"),
    }
}

#[test]
fn incoming_data_round_trip_with_escapes() {
    let content = String::from("say \"hi\" \\ and more");
    let text = encode_incoming(&IncomingMessage::Data { content: content.clone() });
    match decode_incoming(&text) {
        Some(IncomingMessage::Data { content: c }) => assert_eq!(c, content),
        _ => panic!("round trip lost the data command"),
    }
}

#[test]
fn outgoing_generated_code_round_trip() {
    let msg = OutgoingMessage::GeneratedCode { code: String::from("7-fig-grape") };
    let text = encode_outgoing(&msg);
    assert_eq!(text, "{\"type\":\"generated_code\",\"code\":\"7-fig-grape\"}");
    match decode_outgoing(&text) {
        Some(OutgoingMessage::GeneratedCode { code }) => assert_eq!(code, "7-fig-grape"),
        _ => panic!("round trip lost the generated_code event"),
    }
}

#[test]
fn outgoing_data_round_trip() {
    let msg = OutgoingMessage::Data { content: String::from("payload") };
    let text = encode_outgoing(&msg);
    match decode_outgoing(&text) {
        Some(OutgoingMessage::Data { content }) => assert_eq!(content, "payload"),
        _ => panic!("round trip lost the data event"),
    }
}

#[test]
fn outgoing_connection_info_exact_and_round_trip() {
    let uuid: u128 = 0x00112233_4455_6677_8899_aabbccddeeff;
    let msg = OutgoingMessage::ConnectionInfo {
        id: 1,
        channel_uuid: uuid,
        client_ids: vec![1],
        protocol_version: 1,
    };
    let text = encode_outgoing(&msg);
    assert_eq!(
        text,
        "{\"type\":\"connection_info\",\"id\":1,\"channel_uuid\":\
         \"00112233-4455-6677-8899-aabbccddeeff\",\"client_ids\":[1],\"protocol_version\":1}"
    );
    match decode_outgoing(&text) {
        Some(OutgoingMessage::ConnectionInfo { id, channel_uuid, client_ids, protocol_version }) => {
            assert_eq!(id, 1);
            assert_eq!(channel_uuid, uuid);
            assert_eq!(client_ids, vec![1]);
            assert_eq!(protocol_version, 1);
        }
        _ => panic!("round trip lost the connection_info event"),
    }
}

#[test]
fn outgoing_connection_info_empty_members_round_trip() {
    let msg = OutgoingMessage::ConnectionInfo {
        id: 9,
        channel_uuid: 0,
        client_ids: vec![],
        protocol_version: 1,
    };
    let text = encode_outgoing(&msg);
    match decode_outgoing(&text) {
        Some(OutgoingMessage::ConnectionInfo { id, channel_uuid, client_ids, .. }) => {
            assert_eq!(id, 9);
            assert_eq!(channel_uuid, 0);
            assert!(client_ids.is_empty());
        }
        _ => panic!("round trip lost the empty member list"),
    }
}

#[test]
fn outgoing_connection_info_many_members_round_trip() {
    let msg = OutgoingMessage::ConnectionInfo {
        id: 3,
        channel_uuid: u128::MAX,
        client_ids: vec![1, 2, 3, 10, 42],
        protocol_version: 7,
    };
    let text = encode_outgoing(&msg);
    match decode_outgoing(&text) {
        Some(OutgoingMessage::ConnectionInfo { client_ids, channel_uuid, .. }) => {
            assert_eq!(client_ids, vec![1, 2, 3, 10, 42]);
            assert_eq!(channel_uuid, u128::MAX);
        }
        _ => panic!("round trip lost the member list"),
    }
}

#[test]
fn outgoing_client_connected_round_trip() {
    let text = encode_outgoing(&OutgoingMessage::ClientConnected { id: 2 });
    assert_eq!(text, "{\"type\":\"client_connected\",\"id\":2}");
    match decode_outgoing(&text) {
        Some(OutgoingMessage::ClientConnected { id }) => assert_eq!(id, 2),
        _ => panic!("round trip lost the client_connected event"),
    }
}

#[test]
fn outgoing_client_disconnected_round_trip() {
    let text = encode_outgoing(&OutgoingMessage::ClientDisconnected { id: 5 });
    assert_eq!(text, "{\"type\":\"client_disconnected\",\"id\":5}");
    match decode_outgoing(&text) {
        Some(OutgoingMessage::ClientDisconnected { id }) => assert_eq!(id, 5),
        _ => panic!("round trip lost the client_disconnected event"),
    }
}

#[test]
fn decode_rejects_malformed_frames() {
    assert!(decode_incoming("").is_none());
    assert!(decode_incoming("{}").is_none());
    assert!(decode_incoming("{\"type\":\"unknown\"}").is_none());
    assert!(decode_incoming("{\"type\":\"data\",\"content\":\"unterminated").is_none());
    assert!(decode_outgoing("{\"type\":\"client_connected\",\"id\":}").is_none());
    assert!(decode_outgoing("{\"type\":\"client_connected\",\"id\":2").is_none());
}

#[test]
fn decimal_rendering_exact() {
    assert_eq!(u64_to_string(0), "0");
    assert_eq!(u64_to_string(42), "42");
    assert_eq!(u64_to_string(u64::MAX), "18446744073709551615");
}

#[test]
fn decode_rejects_a_malformed_identifier() {
    // wrong hyphen placement
    assert!(decode_outgoing(
        "{\"type\":\"connection_info\",\"id\":1,\"channel_uuid\":\
         \"001122334455-6677-8899-aabbccddeeff\",\"client_ids\":[1],\"protocol_version\":1}"
    )
    .is_none());
    // a digit short
    assert!(decode_outgoing(
        "{\"type\":\"connection_info\",\"id\":1,\"channel_uuid\":\
         \"0011223-4455-6677-8899-aabbccddeeff\",\"client_ids\":[1],\"protocol_version\":1}"
    )
    .is_none());
}

#[test]
fn decode_rejects_a_broken_member_list() {
    assert!(decode_outgoing(
        "{\"type\":\"connection_info\",\"id\":1,\"channel_uuid\":\
         \"00112233-4455-6677-8899-aabbccddeeff\",\"client_ids\":[1,],\"protocol_version\":1}"
    )
    .is_none());
}

#[test]
fn decode_rejects_oversized_numbers() {
    assert!(decode_outgoing("{\"type\":\"client_connected\",\"id\":18446744073709551616}").is_none());
}

#[test]
fn control_characters_render_as_json_escapes() {
    let content = String::from("a\nb\tc\rd\u{8}e\u{c}f\u{1}g\u{1f}h");
    let text = encode_incoming(&IncomingMessage::Data { content: content.clone() });
    assert_eq!(
        text,
        "{\"type\":\"data\",\"content\":\"a\\nb\\tc\\rd\\be\\ff\\u0001g\\u001fh\"}"
    );
    match decode_incoming(&text) {
        Some(IncomingMessage::Data { content: c }) => assert_eq!(c, content),
        _ => panic!("round trip lost the control characters"),
    }
}

#[test]
fn decode_accepts_unicode_and_solidus_escapes() {
    match decode_incoming("{\"type\":\"data\",\"content\":\"x\\u000Ay\\/z\"}") {
        Some(IncomingMessage::Data { content }) => assert_eq!(content, "x\ny/z"),
        _ => panic!("the uppercase-hex and solidus escapes must be read"),
    }
}

#[test]
fn decode_rejects_unknown_escapes() {
    assert!(decode_incoming("{\"type\":\"data\",\"content\":\"a\\qb\"}").is_none());
    // an escape naming a character outside the control range is not one the
    // relay's canonical form ever holds
    assert!(decode_incoming("{\"type\":\"data\",\"content\":\"a\\u0041b\"}").is_none());
    assert!(decode_incoming("{\"type\":\"data\",\"content\":\"a\\u00\"}").is_none());
}
