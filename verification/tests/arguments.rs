use kademlia::arguments::parse_arguments;

fn strings(items: &[&str]) -> Vec<String> {
    items.iter().map(|item| String::from(*item)).collect()
}

#[test]
fn arguments_test_parse_arguments_long() {
    let args = vec![
        String::from("binary_name"),
        String::from("--bind-address=255.255.255.255"),
        String::from("--port=1234"),
        String::from("--state-file=override.bin"),
        String::from("--peer-file=peers.bin"),
    ];

    let config = parse_arguments(args).unwrap();

    assert_eq!(config.bind_address, "255.255.255.255");
    assert_eq!(config.port, 1234);
    assert_eq!(config.state_file, "override.bin");
    assert_eq!(config.peer_file, "peers.bin");
}

#[test]
fn arguments_test_parse_arguments_long_with_space() {
    let args = vec![
        String::from("binary_name"),
        String::from("--bind-address"),
        String::from("255.255.255.255"),
        String::from("--port"),
        String::from("1234"),
        String::from("--state-file"),
        String::from("override.bin"),
        String::from("--peer-file"),
        String::from("peers.bin"),
    ];

    let config = parse_arguments(args).unwrap();

    assert_eq!(config.bind_address, "255.255.255.255");
    assert_eq!(config.port, 1234);
    assert_eq!(config.state_file, "override.bin");
    assert_eq!(config.peer_file, "peers.bin");
}

#[test]
fn arguments_test_parse_arguments_short() {
    let args = vec![
        String::from("binary_name"),
        String::from("-b"),
        String::from("255.255.255.255"),
        String::from("-p"),
        String::from("1234"),
    ];

    let config = parse_arguments(args).unwrap();

    assert_eq!(config.bind_address, "255.255.255.255");
    assert_eq!(config.port, 1234);
}

#[test]
fn test_parse_arguments_none() {
    let args = vec![String::from("binary_name")];

    let config = parse_arguments(args).unwrap();

    assert_eq!(config.bind_address, "0.0.0.0");
    assert_eq!(config.port, 16600);
    assert_eq!(config.state_file, "state.bin");
    assert_eq!(config.peer_file, "peers.bin");
}

#[test]
fn arguments_test_parse_arguments_missing_port_long() {
    let args = vec![String::from("binary_name"), String::from("--port")];

    let config = parse_arguments(args);

    assert!(config.is_err());
    assert_eq!(config.err().unwrap(), "No port number provided.");
}

#[test]
fn arguments_test_parse_arguments_missing_port_short() {
    let args = vec![String::from("binary_name"), String::from("-p")];

    let config = parse_arguments(args);

    assert!(config.is_err());
    assert_eq!(config.err().unwrap(), "No port number provided.");
}

#[test]
fn arguments_test_parse_arguments_invalid_port() {
    let args = vec![String::from("binary_name"), String::from("--port=invalid")];

    let config = parse_arguments(args);

    assert!(config.is_err());
    assert_eq!(
        config.err().unwrap(),
        "Invalid port number provided \"invalid\", invalid digit found in string."
    );
}

#[test]
fn arguments_test_parse_arguments_invalid_argument() {
    let args = vec![String::from("binary_name"), String::from("--invalid")];

    let config = parse_arguments(args);

    assert!(config.is_err());
    assert_eq!(
        config.err().unwrap(),
        "Invalid argument provided: \"--invalid\""
    );
}

#[test]
fn arguments_defaults_include_values_file_and_no_help() {
    let config = parse_arguments(strings(&["binary_name"])).unwrap();

    assert_eq!(config.values_file, "values.bin");
    assert!(!config.help);
}

#[test]
fn arguments_values_file_is_read() {
    let config = parse_arguments(strings(&["binary_name", "--values-file=v.bin"])).unwrap();

    assert_eq!(config.values_file, "v.bin");
}

#[test]
fn arguments_help_stops_the_reading() {
    let config =
        parse_arguments(strings(&["binary_name", "-p", "7", "--help", "--invalid"])).unwrap();

    assert!(config.help);
    assert_eq!(config.port, 7);

    let config = parse_arguments(strings(&["binary_name", "-h"])).unwrap();

    assert!(config.help);
}

#[test]
fn arguments_missing_values_are_reported() {
    assert_eq!(
        parse_arguments(strings(&["binary_name", "-b"])).err().unwrap(),
        "No bind address provided."
    );
    assert_eq!(
        parse_arguments(strings(&["binary_name", "--state-file"])).err().unwrap(),
        "No state file provided."
    );
    assert_eq!(
        parse_arguments(strings(&["binary_name", "--peer-file"])).err().unwrap(),
        "No peer file provided."
    );
    assert_eq!(
        parse_arguments(strings(&["binary_name", "--values-file"])).err().unwrap(),
        "No values file provided."
    );
}

#[test]
fn arguments_are_trimmed_before_they_are_cut() {
    let config = parse_arguments(strings(&["binary_name", "  --port=4321\t"])).unwrap();

    assert_eq!(config.port, 4321);
}

#[test]
fn arguments_port_errors_name_their_cause() {
    assert_eq!(
        parse_arguments(strings(&["binary_name", "--port=65536"])).err().unwrap(),
        "Invalid port number provided \"65536\", number too large to fit in target type."
    );
    assert_eq!(
        parse_arguments(strings(&["binary_name", "--port="])).err().unwrap(),
        "Invalid port number provided \"\", cannot parse integer from empty string."
    );
    assert_eq!(
        parse_arguments(strings(&["binary_name", "--port=-1"])).err().unwrap(),
        "Invalid port number provided \"-1\", invalid digit found in string."
    );
    assert_eq!(parse_arguments(strings(&["binary_name", "--port=+80"])).unwrap().port, 80);
    assert_eq!(parse_arguments(strings(&["binary_name", "--port=65535"])).unwrap().port, 65535);
    assert_eq!(parse_arguments(strings(&["binary_name", "--port=00080"])).unwrap().port, 80);
}

#[test]
fn arguments_without_a_program_name_give_the_defaults() {
    let config = parse_arguments(Vec::new()).unwrap();

    assert_eq!(config.port, 16600);
    assert_eq!(config.bind_address, "0.0.0.0");
}

#[test]
fn arguments_are_trimmed_of_every_kind_of_whitespace() {
    let config =
        parse_arguments(strings(&["binary_name", "\u{a0}--port=99\u{3000}\r\n"])).unwrap();

    assert_eq!(config.port, 99);
    assert_eq!(
        parse_arguments(strings(&["binary_name", "--port=9\u{200b}"])).err().unwrap(),
        "Invalid port number provided \"9\u{200b}\", invalid digit found in string."
    );
}
