use quasar_server::channel::{Channel, ChannelManager};
use quasar_server::code_generator::{Code, CodeError, CodeGenerator};
use quasar_server::codec::decode_outgoing;
use quasar_server::protocol::OutgoingMessage;
use quasar_server::server::{resolve_target, ConnectTarget, Connection};

const WORDS: [&str; 8] =
    ["apple", "banana", "cherry", "date", "elderberry", "fig", "grape", "honeydew"];

#[test]
fn code_text_parses_back() {
    let code = Code {
        channel_number: 7,
        word1: String::from("fig"),
        word2: String::from("grape"),
    };
    let text = code.to_string();
    assert_eq!(text, "7-fig-grape");
    let parsed = Code::parse(&text).expect("a rendered code parses");
    assert_eq!(parsed, code);
}

#[test]
fn code_parse_rejects_malformed_texts() {
    assert!(Code::parse("").is_err());
    assert!(Code::parse("seven-fig-grape").is_err());
    assert!(Code::parse("7").is_err());
    assert!(Code::parse("7-fig").is_err());
    assert!(Code::parse("999-fig-grape").is_err());
    assert!(Code::parse("7x-fig-grape").is_err());
}

#[test]
fn code_parse_ignores_a_fourth_segment() {
    let parsed = Code::parse("7-fig-grape-extra").expect("three segments are enough");
    assert_eq!(parsed.channel_number, 7);
    assert_eq!(parsed.word1, "fig");
    assert_eq!(parsed.word2, "grape");
}

#[test]
fn generated_code_draws_from_pool_and_dictionary() {
    let mut generator = CodeGenerator::new();
    let code = generator.generate().expect("a fresh pool has a slot");
    assert!(code.channel_number < 100);
    assert!(WORDS.contains(&code.word1.as_str()));
    assert!(WORDS.contains(&code.word2.as_str()));
    let second = generator.generate().expect("ninety-nine slots remain");
    assert_ne!(second.channel_number, code.channel_number);
}

#[test]
fn pool_of_one_exhausts_and_recovers() {
    let mut generator = CodeGenerator::with_pool_size(1);
    let first = generator.generate().expect("the one slot is available");
    assert_eq!(first.channel_number, 0);
    match generator.generate() {
        Err(CodeError::ChannelNotAvailable) => {}
        Ok(_) => panic!("a pending slot must not be issued again"),
    }
    generator.release(first.channel_number);
    let third = generator.generate().expect("the released slot is available again");
    assert_eq!(third.channel_number, first.channel_number);
}

#[test]
fn release_is_idempotent() {
    let mut generator = CodeGenerator::with_pool_size(1);
    let code = generator.generate().expect("the one slot is available");
    generator.release(code.channel_number);
    generator.release(code.channel_number);
    generator.generate().expect("the slot is back");
    match generator.generate() {
        Err(CodeError::ChannelNotAvailable) => {}
        Ok(_) => panic!("a double release must not duplicate the slot"),
    }
}

#[test]
fn client_ids_strictly_increase_and_are_never_reused() {
    let mut channel = Channel::new(1);
    let a = channel.add_client();
    let b = channel.add_client();
    assert_eq!(a, 1);
    assert_eq!(b, 2);
    channel.remove_client(a);
    let c = channel.add_client();
    assert_eq!(c, 3);
    assert!(c > a && c > b);
    assert_eq!(channel.client_ids(), vec![b, c]);
}

#[test]
fn removing_an_unknown_member_changes_nothing() {
    let mut channel = Channel::new(1);
    let a = channel.add_client();
    channel.remove_client(99);
    assert_eq!(channel.client_ids(), vec![a]);
}

#[test]
fn broadcast_plans_one_delivery_per_member() {
    let mut channel = Channel::new(1);
    let a = channel.add_client();
    let b = channel.add_client();
    let c = channel.add_client();
    let msg = OutgoingMessage::Data { content: String::from("x") };
    let deliveries = channel.broadcast(&msg);
    assert_eq!(deliveries.len(), 3);
    let recipients: Vec<u64> = deliveries.iter().map(|d| d.client_id).collect();
    assert_eq!(recipients, vec![a, b, c]);
    for d in &deliveries {
        assert_eq!(d.text, "{\"type\":\"data\",\"content\":\"x\"}");
    }
    // One member's failure cannot reach the others: each entry stands on its
    // own, so dropping the delivery for b leaves those for a and c intact.
    let survivors: Vec<u64> =
        deliveries.iter().map(|d| d.client_id).filter(|id| *id != b).collect();
    assert_eq!(survivors, vec![a, c]);
}

#[test]
fn send_reaches_only_a_present_member() {
    let mut channel = Channel::new(1);
    let a = channel.add_client();
    let msg = OutgoingMessage::ClientConnected { id: a };
    let delivery = channel.send(a, &msg).expect("the member is present");
    assert_eq!(delivery.client_id, a);
    assert!(channel.send(99, &msg).is_none());
}

#[test]
fn manager_finds_only_registered_channels() {
    let mut manager = ChannelManager::new();
    let uuid = manager.create_channel();
    assert!(manager.get_channel(uuid).is_some());
    assert!(manager.get_channel(uuid.wrapping_add(1)).is_none());
}

#[test]
fn validate_code_accepts_the_exact_issued_code_once() {
    let mut manager = ChannelManager::new();
    let uuid = manager.create_channel();
    let code = manager.generate_code(uuid).expect("a fresh pool has a slot");
    let resolved = manager.validate_code(code.clone());
    assert_eq!(resolved, Some(uuid));
    // The code is consumed: presenting it again matches nothing.
    assert_eq!(manager.validate_code(code), None);
}

#[test]
fn validate_code_rejects_a_mismatch_and_still_retires_the_number() {
    let mut manager = ChannelManager::new();
    let uuid = manager.create_channel();
    let code = manager.generate_code(uuid).expect("a fresh pool has a slot");
    let forged = Code {
        channel_number: code.channel_number,
        word1: String::from("wrong"),
        word2: String::from("words"),
    };
    assert_eq!(manager.validate_code(forged), None);
    // Even the genuine code no longer matches: the number was retired.
    assert_eq!(manager.validate_code(code), None);
}

#[test]
fn validate_code_rejects_a_code_never_issued() {
    let mut manager = ChannelManager::new();
    let _uuid = manager.create_channel();
    let stray = Code {
        channel_number: 3,
        word1: String::from("fig"),
        word2: String::from("grape"),
    };
    assert_eq!(manager.validate_code(stray), None);
}

#[test]
fn code_issuance_exhausts_after_the_whole_pool() {
    let mut manager = ChannelManager::new();
    let uuid = manager.create_channel();
    for _ in 0..100 {
        manager.generate_code(uuid).expect("the pool holds one hundred slots");
    }
    match manager.generate_code(uuid) {
        Err(CodeError::ChannelNotAvailable) => {}
        Ok(_) => panic!("an exhausted pool must refuse"),
    }
}

fn decoded(text: &str) -> OutgoingMessage {
    decode_outgoing(text).expect("the relay emits well-formed frames")
}

#[test]
fn pairing_scenario_end_to_end() {
    let mut manager = ChannelManager::new();

    // A connects asking for a new channel.
    let channel = resolve_target(&mut manager, &ConnectTarget::NewChannel)
        .expect("a new channel is always granted");
    let (conn_a, welcome_a) = Connection::open(&mut manager, channel)
        .expect("the fresh channel accepts its first member");
    assert_eq!(conn_a.client_id(), 1);
    assert_eq!(welcome_a.len(), 2);
    assert_eq!(welcome_a[0].client_id, 1);
    match decoded(&welcome_a[0].text) {
        OutgoingMessage::ConnectionInfo { id, channel_uuid, client_ids, protocol_version } => {
            assert_eq!(id, 1);
            assert_eq!(channel_uuid, channel);
            assert_eq!(client_ids, vec![1]);
            assert_eq!(protocol_version, 1);
        }
        _ => panic!("the first delivery must be the connection information"),
    }
    match decoded(&welcome_a[1].text) {
        OutgoingMessage::ClientConnected { id } => assert_eq!(id, 1),
        _ => panic!("the room must hear that a member joined"),
    }

    // A asks for a pairing code; the reply goes to A alone.
    let replies = conn_a
        .on_frame(&mut manager, "{\"type\":\"generate_code\"}")
        .expect("the pool has slots");
    assert_eq!(replies.len(), 1);
    assert_eq!(replies[0].client_id, 1);
    let code_text = match decoded(&replies[0].text) {
        OutgoingMessage::GeneratedCode { code } => code,
        _ => panic!("the requester must receive the code"),
    };

    // B connects by presenting the code.
    let channel_b = resolve_target(&mut manager, &ConnectTarget::ByCode(code_text.clone()))
        .expect("the genuine code resolves");
    assert_eq!(channel_b, channel);
    let (conn_b, welcome_b) =
        Connection::open(&mut manager, channel_b).expect("the channel accepts B");
    assert_eq!(conn_b.client_id(), 2);
    // Both A and B hear that B joined.
    assert_eq!(welcome_b.len(), 3);
    let joined_recipients: Vec<u64> = welcome_b[1..].iter().map(|d| d.client_id).collect();
    assert_eq!(joined_recipients, vec![1, 2]);
    for d in &welcome_b[1..] {
        match decoded(&d.text) {
            OutgoingMessage::ClientConnected { id } => assert_eq!(id, 2),
            _ => panic!("the room must hear that B joined"),
        }
    }

    // B sends data; both A and B receive it.
    let fanout = conn_b
        .on_frame(&mut manager, "{\"type\":\"data\",\"content\":\"hello\"}")
        .expect("a data frame is relayed");
    assert_eq!(fanout.len(), 2);
    let recipients: Vec<u64> = fanout.iter().map(|d| d.client_id).collect();
    assert_eq!(recipients, vec![1, 2]);
    for d in &fanout {
        match decoded(&d.text) {
            OutgoingMessage::Data { content } => assert_eq!(content, "hello"),
            _ => panic!("the payload must be relayed as data"),
        }
    }

    // The code was consumed when B presented it.
    match resolve_target(&mut manager, &ConnectTarget::ByCode(code_text)) {
        Err(quasar_server::protocol::QuasarError::InvalidConnectionCode) => {}
        _ => panic!("a consumed code must be rejected"),
    }

    // A leaves; the remaining member hears it.
    let mut conn_a = conn_a;
    let farewells = conn_a.close(&mut manager);
    assert!(!conn_a.is_active());
    assert_eq!(farewells.len(), 1);
    assert_eq!(farewells[0].client_id, 2);
    match decoded(&farewells[0].text) {
        OutgoingMessage::ClientDisconnected { id } => assert_eq!(id, 1),
        _ => panic!("the room must hear that A left"),
    }
}

#[test]
fn malformed_frames_are_dropped() {
    let mut manager = ChannelManager::new();
    let channel = resolve_target(&mut manager, &ConnectTarget::NewChannel).unwrap();
    let (conn, _welcome) = Connection::open(&mut manager, channel).unwrap();
    let deliveries = conn.on_frame(&mut manager, "not json").expect("a bad frame is ignored");
    assert!(deliveries.is_empty());
}

#[test]
fn resolving_an_unknown_channel_fails() {
    let mut manager = ChannelManager::new();
    match resolve_target(&mut manager, &ConnectTarget::ById(12345)) {
        Err(quasar_server::protocol::QuasarError::ChannelNotFound) => {}
        _ => panic!("an unknown identifier must be refused"),
    }
}

#[test]
fn resolving_by_id_reaches_the_channel() {
    let mut manager = ChannelManager::new();
    let uuid = manager.create_channel();
    let resolved = resolve_target(&mut manager, &ConnectTarget::ById(uuid)).unwrap();
    assert_eq!(resolved, uuid);
}

#[test]
fn a_malformed_code_text_is_rejected() {
    let mut manager = ChannelManager::new();
    match resolve_target(&mut manager, &ConnectTarget::ByCode(String::from("gibberish"))) {
        Err(quasar_server::protocol::QuasarError::InvalidConnectionCode) => {}
        _ => panic!("a malformed code must be refused"),
    }
}
