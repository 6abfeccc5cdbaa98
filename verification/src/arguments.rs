//! The command line of the node: which options it takes and what they set.

use crate::text::{
    parse_u16, parse_u16_spec, same_text, split, split_on, trim, trimmed, views, IntErrorKind,
};
use vstd::prelude::*;
use vstd::string::*;

verus! {

/// What the command line asked for.
pub struct Arguments {
    /// The address to bind the server to.
    pub bind_address: String,
    /// The file that holds the known peers.
    pub peer_file: String,
    /// The port the server listens on.
    pub port: u16,
    /// The file that holds the node's state.
    pub state_file: String,
    /// The file that holds the stored values.
    pub values_file: String,
    /// Whether the usage text was asked for; parsing stops at that option.
    pub help: bool,
}

/// [`Arguments`] with each string as its characters.
pub struct ArgumentsView {
    pub bind_address: Seq<char>,
    pub peer_file: Seq<char>,
    pub port: u16,
    pub state_file: Seq<char>,
    pub values_file: Seq<char>,
    pub help: bool,
}

impl View for Arguments {
    type V = ArgumentsView;

    open spec fn view(&self) -> ArgumentsView {
        ArgumentsView {
            bind_address: self.bind_address@,
            peer_file: self.peer_file@,
            port: self.port,
            state_file: self.state_file@,
            values_file: self.values_file@,
            help: self.help,
        }
    }
}

/// The arguments as tokens: each argument is trimmed and cut at every `=`, so
/// that `--port=1234` reads as `--port 1234`.
pub open spec fn expand(args: Seq<Seq<char>>) -> Seq<Seq<char>>
    decreases args.len(),
{
    if args.len() == 0 {
        Seq::empty()
    } else {
        expand(args.drop_last()) + split_on(trimmed(args.last()), '=')
    }
}

/// The tokens of a command line whose first entry is the program's name.
pub open spec fn tokens_of(args: Seq<Seq<char>>) -> Seq<Seq<char>> {
    if args.len() == 0 {
        Seq::empty()
    } else {
        expand(args.subrange(1, args.len() as int))
    }
}

/// The message for a port that is no 16-bit decimal number.
pub open spec fn invalid_port_text(value: Seq<char>, kind: IntErrorKind) -> Seq<char> {
    "Invalid port number provided \""@ + value + "\", "@ + kind.text() + "."@
}

/// The message for a token that is no known option.
pub open spec fn invalid_argument_text(token: Seq<char>) -> Seq<char> {
    "Invalid argument provided: \""@ + token + "\""@
}

/// The values that hold when no option is given.
pub open spec fn default_arguments() -> ArgumentsView {
    ArgumentsView {
        bind_address: "0.0.0.0"@,
        peer_file: "peers.bin"@,
        port: 16600,
        state_file: "state.bin"@,
        values_file: "values.bin"@,
        help: false,
    }
}

/// Reads the tokens from position `at` on, starting from the values `so_far`.
/// An option that takes a value consumes the next token untrimmed; the first
/// fault ends the reading with its message, and a request for help ends it
/// with the values read up to there.
pub open spec fn parse_tokens(tokens: Seq<Seq<char>>, at: int, so_far: ArgumentsView) -> Result<
    ArgumentsView,
    Seq<char>,
>
    decreases tokens.len() - at,
{
    if at >= tokens.len() {
        Ok(so_far)
    } else {
        let flag = trimmed(tokens[at]);
        let last = at + 1 >= tokens.len();
        if flag == "-b"@ || flag == "--bind-address"@ {
            if last {
                Err("No bind address provided."@)
            } else {
                parse_tokens(tokens, at + 2, ArgumentsView { bind_address: tokens[at + 1], ..so_far })
            }
        } else if flag == "-h"@ || flag == "--help"@ {
            Ok(ArgumentsView { help: true, ..so_far })
        } else if flag == "-p"@ || flag == "--port"@ {
            if last {
                Err("No port number provided."@)
            } else {
                match parse_u16_spec(tokens[at + 1]) {
                    Ok(port) => parse_tokens(tokens, at + 2, ArgumentsView { port, ..so_far }),
                    Err(kind) => Err(invalid_port_text(tokens[at + 1], kind)),
                }
            }
        } else if flag == "--state-file"@ {
            if last {
                Err("No state file provided."@)
            } else {
                parse_tokens(tokens, at + 2, ArgumentsView { state_file: tokens[at + 1], ..so_far })
            }
        } else if flag == "--peer-file"@ {
            if last {
                Err("No peer file provided."@)
            } else {
                parse_tokens(tokens, at + 2, ArgumentsView { peer_file: tokens[at + 1], ..so_far })
            }
        } else if flag == "--values-file"@ {
            if last {
                Err("No values file provided."@)
            } else {
                parse_tokens(tokens, at + 2, ArgumentsView { values_file: tokens[at + 1], ..so_far })
            }
        } else {
            Err(invalid_argument_text(tokens[at]))
        }
    }
}

/// What a command line means: its tokens read from the defaults on.
pub open spec fn parse_arguments_spec(args: Seq<Seq<char>>) -> Result<ArgumentsView, Seq<char>> {
    parse_tokens(tokens_of(args), 0, default_arguments())
}

/// A parse result with its strings as characters.
pub open spec fn outcome_view(result: Result<Arguments, String>) -> Result<
    ArgumentsView,
    Seq<char>,
> {
    match result {
        Ok(arguments) => Ok(arguments@),
        Err(message) => Err(message@),
    }
}

proof fn lemma_views_push(v: Seq<String>, s: String)
    ensures
        views(v.push(s)) == views(v).push(s@),
{
    assert(views(v.push(s)) =~= views(v).push(s@));
}

/// The tokens of a command line whose first entry is the program's name.
pub fn expand_arguments(args: &Vec<String>) -> (tokens: Vec<String>)
    ensures
        views(tokens@) == tokens_of(views(args@)),
{
    let mut tokens: Vec<String> = Vec::new();
    let n = args.len();
    if n == 0 {
        assert(views(tokens@) =~= Seq::<Seq<char>>::empty());
        return tokens;
    }
    let ghost rest = views(args@).subrange(1, n as int);
    let mut i: usize = 1;
    assert(rest.subrange(0, 0) =~= Seq::<Seq<char>>::empty());
    assert(views(tokens@) =~= Seq::<Seq<char>>::empty());
    while i < n
        invariant
            n == args.len(),
            1 <= i <= n,
            rest == views(args@).subrange(1, n as int),
            views(tokens@) == expand(rest.subrange(0, i - 1)),
        decreases n - i,
    {
        let cleaned = trim(args[i].as_str());
        let pieces = split(cleaned.as_str(), '=');
        proof {
            let upto = rest.subrange(0, i as int);
            assert(upto.drop_last() == rest.subrange(0, i - 1));
            assert(upto.last() == args@[i as int]@);
        }
        let ghost before = tokens@;
        let mut k: usize = 0;
        while k < pieces.len()
            invariant
                k <= pieces.len(),
                views(tokens@) == views(before) + views(pieces@).subrange(0, k as int),
            decreases pieces.len() - k,
        {
            proof {
                lemma_views_push(tokens@, pieces@[k as int]);
                assert(views(pieces@).subrange(0, k + 1) == views(pieces@).subrange(
                    0,
                    k as int,
                ).push(pieces@[k as int]@));
            }
            tokens.push(pieces[k].clone());
            k = k + 1;
        }
        assert(views(pieces@).subrange(0, pieces.len() as int) == views(pieces@));
        i = i + 1;
    }
    assert(rest.subrange(0, n - 1) == rest);
    tokens
}

/// Whether `flag` is one of the two spellings of an option.
fn is_option(flag: &String, short: &str, long: &str) -> (b: bool)
    ensures
        b == (flag@ == short@ || flag@ == long@),
{
    same_text(flag.as_str(), short) || same_text(flag.as_str(), long)
}

/// The message for a port that is no 16-bit decimal number.
pub fn invalid_port_message(value: &String, kind: IntErrorKind) -> (m: String)
    ensures
        m@ == invalid_port_text(value@, kind),
{
    let m = String::from_str("Invalid port number provided \"");
    let m = m.concat(value.as_str());
    let m = m.concat("\", ");
    let m = m.concat(kind.message().as_str());
    m.concat(".")
}

/// The message for a token that is no known option.
pub fn invalid_argument_message(token: &String) -> (m: String)
    ensures
        m@ == invalid_argument_text(token@),
{
    let m = String::from_str("Invalid argument provided: \"");
    let m = m.concat(token.as_str());
    m.concat("\"")
}

/// Reads a command line whose first entry is the program's name.
///
/// Options: `-b`/`--bind-address`, `-p`/`--port`, `--state-file`,
/// `--peer-file`, `--values-file`, each followed by its value or joined to it
/// with `=`, and `-h`/`--help`, at which reading stops with `help` set.
pub fn parse_arguments(args: Vec<String>) -> (result: Result<Arguments, String>)
    ensures
        outcome_view(result) == parse_arguments_spec(views(args@)),
{
    let tokens = expand_arguments(&args);
    let mut port: u16 = 16600;
    let mut state_file = String::from_str("state.bin");
    let mut peer_file = String::from_str("peers.bin");
    let mut values_file = String::from_str("values.bin");
    let mut bind_address = String::from_str("0.0.0.0");
    let n = tokens.len();
    let mut current_index: usize = 0;
    while current_index < n
        invariant
            n == tokens.len(),
            current_index <= n,
            parse_arguments_spec(views(args@)) == parse_tokens(
                views(tokens@),
                current_index as int,
                (ArgumentsView {
                    bind_address: bind_address@,
                    peer_file: peer_file@,
                    port: port,
                    state_file: state_file@,
                    values_file: values_file@,
                    help: false,
                }),
            ),
        decreases n - current_index,
    {
        let flag = trim(tokens[current_index].as_str());
        let last = current_index + 1 >= n;
        if is_option(&flag, "-b", "--bind-address") {
            if last {
                return Err(String::from_str("No bind address provided."));
            }
            bind_address = tokens[current_index + 1].clone();
        } else if is_option(&flag, "-h", "--help") {
            return Ok(
                Arguments { bind_address, peer_file, port, state_file, values_file, help: true },
            );
        } else if is_option(&flag, "-p", "--port") {
            if last {
                return Err(String::from_str("No port number provided."));
            }
            match parse_u16(tokens[current_index + 1].as_str()) {
                Ok(value) => {
                    port = value;
                },
                Err(kind) => {
                    return Err(invalid_port_message(&tokens[current_index + 1], kind));
                },
            }
        } else if same_text(flag.as_str(), "--state-file") {
            if last {
                return Err(String::from_str("No state file provided."));
            }
            state_file = tokens[current_index + 1].clone();
        } else if same_text(flag.as_str(), "--peer-file") {
            if last {
                return Err(String::from_str("No peer file provided."));
            }
            peer_file = tokens[current_index + 1].clone();
        } else if same_text(flag.as_str(), "--values-file") {
            if last {
                return Err(String::from_str("No values file provided."));
            }
            values_file = tokens[current_index + 1].clone();
        } else {
            return Err(invalid_argument_message(&tokens[current_index]));
        }
        current_index = current_index + 2;
    }
    Ok(Arguments { bind_address, peer_file, port, state_file, values_file, help: false })
}

} // verus!
