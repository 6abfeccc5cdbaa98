use kademlia::terminal::{parse_command, words, Command};

fn is_none(r: Result<Option<Command>, String>) -> bool {
    matches!(r, Ok(None))
}

#[test]
fn a_line_is_cut_into_words_at_whitespace() {
    assert_eq!(words("store_value  key\tvalue\n"), vec!["store_value", "key", "value"]);
    assert_eq!(words("  exit"), vec!["exit"]);
    assert_eq!(words("a"), vec!["a"]);
    assert_eq!(words(""), Vec::<String>::new());
    assert_eq!(words(" \t\r\n"), Vec::<String>::new());
    assert_eq!(words("a\u{a0}b\u{3000}c"), vec!["a", "b", "c"]);
}

#[test]
fn a_blank_line_asks_for_nothing() {
    assert!(is_none(parse_command("")));
    assert!(is_none(parse_command("   \n")));
}

#[test]
fn commands_are_recognised() {
    assert!(matches!(parse_command("exit\n"), Ok(Some(Command::Exit))));
    assert!(matches!(parse_command("list_peers\n"), Ok(Some(Command::ListPeers))));
    assert!(matches!(parse_command("exit now\n"), Ok(Some(Command::Exit))));

    match parse_command("add_peer 127.0.0.1:16700\n") {
        Ok(Some(Command::AddPeer(address))) => assert_eq!(address, "127.0.0.1:16700"),
        _ => panic!("no add_peer"),
    }

    let key = "d".repeat(40);
    match parse_command(&format!("store_value {} hello world\n", key)) {
        Ok(Some(Command::StoreValue(k, value))) => {
            assert_eq!(k, key);
            assert_eq!(value, "hello");
        }
        _ => panic!("no store_value"),
    }
}

#[test]
fn faulty_commands_are_explained() {
    assert_eq!(parse_command("dance\n").err().unwrap(), "Invalid command: dance");
    assert_eq!(parse_command("EXIT\n").err().unwrap(), "Invalid command: EXIT");
    assert_eq!(
        parse_command("add_peer\n").err().unwrap(),
        "Failed to run command add_peer, Usage: add_node <ip:port>"
    );
    assert_eq!(
        parse_command("store_value key\n").err().unwrap(),
        "Failed to run command store_value, Usage: store_value <key> <value>"
    );
    assert_eq!(
        parse_command("store_value key value\n").err().unwrap(),
        "Failed to run command store_value, Key must be a SHA1 hash."
    );
    assert_eq!(
        parse_command(&format!("store_value {} value\n", "D".repeat(40))).err().unwrap(),
        "Failed to run command store_value, Key must be a SHA1 hash."
    );
}

#[test]
fn whitespace_is_what_the_standard_library_takes_for_it() {
    let mut code = 0u32;
    while code <= 0x10ffff {
        if let Some(c) = char::from_u32(code) {
            let mut line = String::from("a");
            line.push(c);
            line.push('b');
            assert_eq!(words(&line).len() == 2, c.is_whitespace(), "U+{:04X}", code);
        }
        code += 1;
    }
}

#[test]
fn a_zero_width_space_is_no_whitespace() {
    assert_eq!(words("a\u{200b}b"), vec!["a\u{200b}b"]);
    assert_eq!(words("a\u{85}b\u{2028}c"), vec!["a", "b", "c"]);
}

#[test]
fn commands_have_names_and_failures_name_them() {
    assert_eq!(Command::Exit.name(), "exit");
    assert_eq!(Command::AddPeer(String::from("x")).name(), "add_peer");
    assert_eq!(Command::StoreValue(String::from("k"), String::from("v")).name(), "store_value");
    assert_eq!(Command::ListPeers.name(), "list_peers");
    assert_eq!(
        Command::AddPeer(String::from("x")).failure_message("Failed to parse address: nope"),
        "Failed to run command add_peer, Failed to parse address: nope"
    );
}
