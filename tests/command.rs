use socketboard::command::{get_flags, parse_command, tokenize};

fn strings(v: &[&str]) -> Vec<String> {
    v.iter().map(|s| s.to_string()).collect()
}

fn flag(flags: &[(String, Option<String>)], name: &str) -> Option<Option<String>> {
    flags.iter().find(|(k, _)| k == name).map(|(_, v)| v.clone())
}

#[test]
fn tokenize_splits_quotes_and_escapes() {
    assert_eq!(tokenize("a \"b c\" d\\\"e").unwrap(), strings(&["a", "b c", "d\"e"]));
    assert_eq!(tokenize("  many   spaces ").unwrap(), strings(&["many", "spaces"]));
    assert_eq!(tokenize("").unwrap(), Vec::<String>::new());
    assert_eq!(tokenize("é \\\\x").unwrap(), strings(&["é", "\\x"]));
    assert_eq!(tokenize("say \"hi").unwrap_err(), "Unterminated quote");
}

#[test]
fn flags_take_following_value() {
    let f = get_flags(strings(&["-a", "1", "--b", "c", "d"]));
    assert_eq!(f.len(), 2);
    assert_eq!(flag(&f, "a"), Some(Some("1".to_string())));
    assert_eq!(flag(&f, "b"), Some(Some("c".to_string())));
    let f = get_flags(strings(&["--x", "--y"]));
    assert_eq!(flag(&f, "x"), Some(None));
    assert_eq!(flag(&f, "y"), Some(None));
    let f = get_flags(strings(&["-x", "1", "-x"]));
    assert_eq!(f.len(), 1);
    assert_eq!(flag(&f, "x"), Some(None));
    assert_eq!(get_flags(strings(&["plain", "words"])).len(), 0);
}

#[test]
fn parse_command_parts() {
    let p = parse_command("help").unwrap();
    assert_eq!(p.command, "help");
    assert!(p.args.is_empty());
    assert!(p.flags.is_empty());
    let p = parse_command("terminate 3 --help").unwrap();
    assert_eq!(p.command, "terminate");
    assert_eq!(p.args, strings(&["3", "--help"]));
    assert_eq!(flag(&p.flags, "help"), Some(None));
    assert_eq!(parse_command("   ").err().unwrap(), "No command");
    assert_eq!(parse_command("\"open").err().unwrap(), "Unterminated quote");
}
