use socketboard::command::parse_command;
use socketboard::console::{parse_id, terminate_command, TerminateError};
use socketboard::hub::Hub;
use socketboard::value::Data;

#[test]
fn ids_parse_as_decimal() {
    assert_eq!(parse_id("0"), Some(0));
    assert_eq!(parse_id("42"), Some(42));
    assert_eq!(parse_id("+7"), Some(7));
    assert_eq!(parse_id("18446744073709551615"), Some(u64::MAX));
    assert_eq!(parse_id("18446744073709551616"), None);
    assert_eq!(parse_id(""), None);
    assert_eq!(parse_id("+"), None);
    assert_eq!(parse_id("-1"), None);
    assert_eq!(parse_id("1a"), None);
}

#[test]
fn terminate_command_outcomes() {
    let mut hub = Hub::new();
    hub.accept();
    hub.accept();
    let cmd = parse_command("terminate").unwrap();
    assert_eq!(terminate_command(&mut hub, &cmd), Err(TerminateError::MissingId));
    let cmd = parse_command("terminate x").unwrap();
    assert_eq!(terminate_command(&mut hub, &cmd), Err(TerminateError::InvalidId));
    let cmd = parse_command("terminate 5").unwrap();
    assert_eq!(terminate_command(&mut hub, &cmd), Err(TerminateError::NotFound));
    let cmd = parse_command("terminate 1").unwrap();
    assert_eq!(terminate_command(&mut hub, &cmd), Ok(1));
    let d = hub.drain(1).unwrap();
    assert!(d.close);
    assert_eq!(
        d.messages,
        vec![Data::Object(vec![("terminate".to_string(), Data::Boolean(true))])]
    );
    assert!(hub.drain(0).unwrap().messages.is_empty());
}
