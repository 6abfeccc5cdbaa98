use kademlia::config::parse_arguments;

#[test]
fn config_test_parse_arguments_long() {
    let args = vec![String::from("binary_name"), String::from("--port=1234")];

    let config = parse_arguments(args).unwrap();

    assert_eq!(config.port, 1234);
}

#[test]
fn config_test_parse_arguments_long_with_space() {
    let args = vec![
        String::from("binary_name"),
        String::from("--port"),
        String::from("1234"),
    ];

    let config = parse_arguments(args).unwrap();

    assert_eq!(config.port, 1234);
}

#[test]
fn config_test_parse_arguments_short() {
    let args = vec![
        String::from("binary_name"),
        String::from("-p"),
        String::from("1234"),
    ];

    let config = parse_arguments(args).unwrap();

    assert_eq!(config.port, 1234);
}

#[test]
fn test_parse_arguments_no_port() {
    let args = vec![String::from("binary_name")];

    let config = parse_arguments(args).unwrap();

    assert_eq!(config.port, 16600);
}

#[test]
fn config_test_parse_arguments_missing_port_long() {
    let args = vec![String::from("binary_name"), String::from("--port")];

    let config = parse_arguments(args);

    assert!(config.is_err());
    assert_eq!(config.err().unwrap(), "No port number provided.");
}

#[test]
fn config_test_parse_arguments_missing_port_short() {
    let args = vec![String::from("binary_name"), String::from("-p")];

    let config = parse_arguments(args);

    assert!(config.is_err());
    assert_eq!(config.err().unwrap(), "No port number provided.");
}

#[test]
fn config_test_parse_arguments_invalid_port() {
    let args = vec![String::from("binary_name"), String::from("--port=invalid")];

    let config = parse_arguments(args);

    assert!(config.is_err());
    assert_eq!(
        config.err().unwrap(),
        "Invalid port number provided \"invalid\", invalid digit found in string."
    );
}

#[test]
fn config_test_parse_arguments_invalid_argument() {
    let args = vec![String::from("binary_name"), String::from("--invalid")];

    let config = parse_arguments(args);

    assert!(config.is_err());
    assert_eq!(
        config.err().unwrap(),
        "Invalid argument provided: \"--invalid\""
    );
}

#[test]
fn config_knows_no_other_option() {
    let args = vec![String::from("binary_name"), String::from("--bind-address=1.2.3.4")];

    assert_eq!(
        parse_arguments(args).err().unwrap(),
        "Invalid argument provided: \"--bind-address\""
    );
}

#[test]
fn config_later_port_wins() {
    let args = vec![
        String::from("binary_name"),
        String::from("-p"),
        String::from("1"),
        String::from("--port=2"),
    ];

    assert_eq!(parse_arguments(args).unwrap().port, 2);
}
