//! The smallest configuration of a node: the port it listens on.

use crate::arguments::{
    expand_arguments, invalid_argument_message, invalid_argument_text, invalid_port_message,
    invalid_port_text, tokens_of,
};
use crate::text::{parse_u16, parse_u16_spec, same_text, trim, trimmed, views};
use vstd::prelude::*;
use vstd::string::*;

verus! {

/// The configuration of a node.
pub struct NodeConfig {
    /// The port the server listens on.
    pub port: u16,
}

/// Reads the tokens from position `at` on, with `port` the value read so far.
/// Only `-p` and `--port` are known; the first fault ends the reading with
/// its message.
pub open spec fn parse_port_tokens(tokens: Seq<Seq<char>>, at: int, port: u16) -> Result<
    u16,
    Seq<char>,
>
    decreases tokens.len() - at,
{
    if at >= tokens.len() {
        Ok(port)
    } else {
        let flag = trimmed(tokens[at]);
        if flag == "-p"@ || flag == "--port"@ {
            if at + 1 >= tokens.len() {
                Err("No port number provided."@)
            } else {
                match parse_u16_spec(tokens[at + 1]) {
                    Ok(value) => parse_port_tokens(tokens, at + 2, value),
                    Err(kind) => Err(invalid_port_text(tokens[at + 1], kind)),
                }
            }
        } else {
            Err(invalid_argument_text(tokens[at]))
        }
    }
}

/// What a command line means: the port it names, 16600 where it names none.
pub open spec fn parse_config_spec(args: Seq<Seq<char>>) -> Result<u16, Seq<char>> {
    parse_port_tokens(tokens_of(args), 0, 16600)
}

/// A parse result with its message as characters.
pub open spec fn config_outcome_view(result: Result<NodeConfig, String>) -> Result<
    u16,
    Seq<char>,
> {
    match result {
        Ok(config) => Ok(config.port),
        Err(message) => Err(message@),
    }
}

/// Reads a command line whose first entry is the program's name and whose
/// only option is `-p`/`--port`, followed by its value or joined to it with `=`.
pub fn parse_arguments(args: Vec<String>) -> (result: Result<NodeConfig, String>)
    ensures
        config_outcome_view(result) == parse_config_spec(views(args@)),
{
    let tokens = expand_arguments(&args);
    let mut port: u16 = 16600;
    let n = tokens.len();
    let mut current_index: usize = 0;
    while current_index < n
        invariant
            n == tokens.len(),
            current_index <= n,
            parse_config_spec(views(args@)) == parse_port_tokens(
                views(tokens@),
                current_index as int,
                port,
            ),
        decreases n - current_index,
    {
        let flag = trim(tokens[current_index].as_str());
        if same_text(flag.as_str(), "-p") || same_text(flag.as_str(), "--port") {
            if current_index + 1 >= n {
                return Err(String::from_str("No port number provided."));
            }
            match parse_u16(tokens[current_index + 1].as_str()) {
                Ok(value) => {
                    port = value;
                },
                Err(kind) => {
                    return Err(invalid_port_message(&tokens[current_index + 1], kind));
                },
            }
        } else {
            return Err(invalid_argument_message(&tokens[current_index]));
        }
        current_index = current_index + 2;
    }
    Ok(NodeConfig { port })
}

} // verus!
