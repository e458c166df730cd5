use socketboard::hub::Hub;
use socketboard::protocol::{decimal_text, is_valid_name, Phase, ProtocolError, Session};
use socketboard::table::SharedTable;
use socketboard::value::Data;

fn s(t: &str) -> String {
    t.to_string()
}

fn obj(entries: Vec<(&str, Data)>) -> Data {
    Data::Object(entries.into_iter().map(|(k, v)| (k.to_string(), v)).collect())
}

fn handshake(name: &str) -> Data {
    obj(vec![("type", Data::String(s("handshake"))), ("name", Data::String(s(name)))])
}

fn update(entries: Vec<(&str, Data)>) -> Data {
    obj(vec![("type", Data::String(s("update"))), ("table", obj(entries))])
}

fn welcome(id: &str, table: Vec<(&str, Data)>) -> Data {
    obj(vec![
        ("type", Data::String(s("handshake"))),
        ("status", Data::String(s("ok"))),
        ("id", Data::Number(s(id))),
        ("table", obj(table)),
    ])
}

fn rejection() -> Data {
    obj(vec![
        ("type", Data::String(s("handshake"))),
        ("status", Data::String(s("error"))),
        ("message", Data::String(s("Invalid client name"))),
        ("terminate", Data::Boolean(true)),
    ])
}

#[test]
fn handshake_alice_on_empty_table() {
    let mut hub = Hub::new();
    assert_eq!(hub.accept(), Some(0));
    assert_eq!(hub.receive(0, &handshake("alice")), None);
    let d = hub.drain(0).unwrap();
    assert!(!d.close);
    assert_eq!(d.messages, vec![welcome("0", vec![])]);
    assert_eq!(hub.connection_list(), vec![(0, s("alice"))]);
}

#[test]
fn handshake_invalid_name_is_rejected_and_closes() {
    let mut hub = Hub::new();
    hub.accept();
    assert_eq!(hub.receive(0, &handshake("a!")), Some(ProtocolError::InvalidName));
    let d = hub.drain(0).unwrap();
    assert!(d.close);
    assert_eq!(d.messages, vec![rejection()]);
    // nothing after the rejection is handled
    assert_eq!(hub.receive(0, &handshake("alice")), Some(ProtocolError::Closed));
    assert_eq!(hub.connection_list(), vec![(0, s(""))]);
}

#[test]
fn handshake_empty_name_is_rejected() {
    let mut hub = Hub::new();
    hub.accept();
    assert_eq!(hub.receive(0, &handshake("")), Some(ProtocolError::InvalidName));
    assert!(hub.drain(0).unwrap().close);
}

#[test]
fn update_reaches_other_clients_and_table() {
    let mut hub = Hub::new();
    hub.accept();
    hub.accept();
    hub.accept();
    assert_eq!(hub.receive(0, &handshake("a")), None);
    assert_eq!(hub.receive(1, &handshake("b")), None);
    assert_eq!(hub.receive(2, &handshake("c")), None);
    for id in 0..3 {
        hub.drain(id);
    }
    assert_eq!(hub.receive(0, &update(vec![("x", Data::Number(s("1")))])), None);
    let envelope = obj(vec![
        ("type", Data::String(s("update"))),
        ("status", Data::String(s("ok"))),
        ("table", obj(vec![("x", Data::Number(s("1")))])),
    ]);
    // the sender gets no echo
    assert_eq!(hub.drain(0).unwrap().messages, vec![]);
    // b drains now, c much later: each gets exactly one envelope
    assert_eq!(hub.drain(1).unwrap().messages, vec![envelope.clone()]);
    assert_eq!(hub.drain(1).unwrap().messages, vec![]);
    assert_eq!(hub.drain(2).unwrap().messages, vec![envelope]);
    assert_eq!(hub.table_snapshot(), vec![(s("x"), Data::Number(s("1")))]);
}

#[test]
fn update_skips_unauthenticated_peer() {
    let mut hub = Hub::new();
    hub.accept();
    hub.accept();
    hub.receive(0, &handshake("a"));
    hub.drain(0);
    hub.receive(0, &update(vec![("k", Data::Boolean(true))]));
    assert_eq!(hub.drain(1).unwrap().messages, vec![]);
}

#[test]
fn later_handshake_sees_table_snapshot() {
    let mut hub = Hub::new();
    hub.accept();
    hub.accept();
    hub.receive(0, &handshake("a"));
    hub.receive(0, &update(vec![("x", Data::Number(s("2.5"))), ("y", Data::Null)]));
    hub.receive(1, &handshake("b"));
    let d = hub.drain(1).unwrap();
    assert_eq!(
        d.messages,
        vec![welcome("1", vec![("x", Data::Number(s("2.5"))), ("y", Data::Null)])]
    );
}

#[test]
fn duplicate_handshake_gets_failure_and_stays_open() {
    let mut hub = Hub::new();
    hub.accept();
    hub.receive(0, &handshake("a"));
    hub.drain(0);
    assert_eq!(hub.receive(0, &handshake("b")), Some(ProtocolError::AlreadyAuthenticated));
    let d = hub.drain(0).unwrap();
    assert!(!d.close);
    assert_eq!(
        d.messages,
        vec![obj(vec![
            ("type", Data::String(s("handshake"))),
            ("status", Data::String(s("error"))),
            ("message", Data::String(s("Handshake already completed"))),
        ])]
    );
    assert_eq!(hub.connection_list(), vec![(0, s("a"))]);
}

#[test]
fn protocol_errors_are_recoverable() {
    let mut hub = Hub::new();
    hub.accept();
    assert_eq!(hub.receive(0, &update(vec![("x", Data::Null)])), Some(ProtocolError::NotAuthenticated));
    assert_eq!(hub.receive(0, &obj(vec![])), Some(ProtocolError::MissingType));
    assert_eq!(hub.receive(0, &Data::Null), Some(ProtocolError::MissingType));
    assert_eq!(
        hub.receive(0, &obj(vec![("type", Data::String(s("ping")))])),
        Some(ProtocolError::UnknownType)
    );
    assert_eq!(
        hub.receive(0, &obj(vec![("type", Data::String(s("handshake")))])),
        Some(ProtocolError::MissingName)
    );
    assert_eq!(hub.receive(0, &handshake("ok1")), None);
    assert_eq!(
        hub.receive(0, &obj(vec![("type", Data::String(s("update")))])),
        Some(ProtocolError::MissingTable)
    );
    assert_eq!(
        hub.receive(0, &obj(vec![("type", Data::String(s("update"))), ("table", Data::Null)])),
        Some(ProtocolError::MissingTable)
    );
    assert_eq!(hub.table_snapshot(), vec![]);
    assert_eq!(hub.receive(7, &handshake("x")), Some(ProtocolError::Closed));
}

#[test]
fn identifiers_are_never_reused() {
    let mut hub = Hub::new();
    assert_eq!(hub.accept(), Some(0));
    assert_eq!(hub.accept(), Some(1));
    assert!(hub.remove(0));
    assert!(!hub.remove(0));
    assert_eq!(hub.accept(), Some(2));
    assert_eq!(hub.connection_list(), vec![(1, s("")), (2, s(""))]);
}

#[test]
fn last_write_wins_in_table() {
    let mut t = SharedTable::new();
    t.apply_update(&vec![(s("k"), Data::Number(s("1"))), (s("j"), Data::Null)]);
    t.apply_update(&vec![(s("k"), Data::String(s("two")))]);
    t.apply_update(&vec![(s("k"), Data::Boolean(false)), (s("k"), Data::Number(s("3")))]);
    assert_eq!(t.len(), 2);
    assert_eq!(t.get(&s("k")), Some(&Data::Number(s("3"))));
    assert_eq!(t.get(&s("j")), Some(&Data::Null));
    assert_eq!(t.get(&s("z")), None);
}

#[test]
fn terminate_and_send_from_console() {
    let mut hub = Hub::new();
    hub.accept();
    hub.accept();
    assert!(hub.send(1, Data::String(s("hi"))));
    assert!(hub.terminate(1));
    assert!(hub.send(1, Data::Null));
    assert!(!hub.terminate(5));
    let d = hub.drain(1).unwrap();
    assert!(d.close);
    assert_eq!(
        d.messages,
        vec![Data::String(s("hi")), obj(vec![("terminate", Data::Boolean(true))])]
    );
    // what follows the directive stays queued
    assert_eq!(hub.drain(1).unwrap().messages, vec![Data::Null]);
    assert_eq!(hub.drain(0).unwrap().messages, vec![]);
    assert!(hub.drain(9).is_none());
}

#[test]
fn broadcast_reaches_everyone() {
    let mut hub = Hub::new();
    hub.accept();
    hub.accept();
    hub.broadcast(&Data::Array(vec![Data::Number(s("1")), Data::Null]));
    for id in 0..2 {
        assert_eq!(
            hub.drain(id).unwrap().messages,
            vec![Data::Array(vec![Data::Number(s("1")), Data::Null])]
        );
    }
}

#[test]
fn session_handles_directly() {
    let mut session = Session::new(4);
    let mut table = SharedTable::new();
    let out = session.handle(&handshake("bob"), &mut table);
    assert_eq!(out.error, None);
    assert_eq!(out.reply, Some(welcome("4", vec![])));
    assert_eq!(session.phase, Phase::Authenticated);
    assert_eq!(session.name, "bob");
    let out = session.handle(&update(vec![("a", Data::Null)]), &mut table);
    assert_eq!(out.delta, Some(vec![(s("a"), Data::Null)]));
    assert_eq!(out.reply, None);
}

#[test]
fn names_and_numerals() {
    assert!(is_valid_name("alice"));
    assert!(is_valid_name("Bob42"));
    assert!(is_valid_name("élan"));
    assert!(!is_valid_name(""));
    assert!(!is_valid_name("a!"));
    assert!(!is_valid_name("a b"));
    assert_eq!(decimal_text(0), "0");
    assert_eq!(decimal_text(7), "7");
    assert_eq!(decimal_text(12345), "12345");
    assert_eq!(decimal_text(u64::MAX), "18446744073709551615");
}

#[test]
fn values_render_for_the_console() {
    assert_eq!(Data::String(s("hi")).render(), "hi");
    assert_eq!(Data::Number(s("1.5")).render(), "1.5");
    assert_eq!(Data::Boolean(true).render(), "true");
    assert_eq!(Data::Boolean(false).render(), "false");
    assert_eq!(Data::Null.render(), "None");
    assert_eq!(Data::Array(vec![]).render(), "[]");
    assert_eq!(
        Data::Array(vec![Data::Number(s("1")), Data::String(s("a")), Data::Null]).render(),
        "[1, a, None]"
    );
    assert_eq!(obj(vec![]).render(), "{}");
    assert_eq!(
        obj(vec![("x", Data::Number(s("1"))), ("y", obj(vec![("z", Data::Boolean(true))]))]).render(),
        "{\"x\": 1, \"y\": {\"z\": true}}"
    );
}

#[test]
fn connections_are_labelled() {
    let mut hub = Hub::new();
    hub.accept();
    hub.accept();
    hub.receive(1, &handshake("carol"));
    assert_eq!(hub.connection_labels(), vec![s("Connection (0)"), s("carol (id: 1)")]);
    assert!(hub.is_registered(1));
    assert!(!hub.is_registered(2));
}
