//! The commands of the operator: what a line typed at the terminal asks for.

use crate::codec::is_valid_id;
use crate::text::{
    char_is_whitespace, chars_of, is_whitespace_char, push_char, same_text, views,
};
use crate::utilities::is_node_id;
use vstd::prelude::*;
use vstd::string::*;

verus! {

/// What the operator asks for.
pub enum Command {
    /// Shut the node down.
    Exit,
    /// Ping the node at this address, written as `ip:port`.
    AddPeer(String),
    /// Keep this value under this key, here and at the peers nearest to the key.
    StoreValue(String, String),
    /// List the peers of the routing table.
    ListPeers,
}

/// [`Command`] over views.
pub enum CommandView {
    Exit,
    AddPeer(Seq<char>),
    StoreValue(Seq<char>, Seq<char>),
    ListPeers,
}

impl View for Command {
    type V = CommandView;

    open spec fn view(&self) -> CommandView {
        match self {
            Command::Exit => CommandView::Exit,
            Command::AddPeer(address) => CommandView::AddPeer(address@),
            Command::StoreValue(key, value) => CommandView::StoreValue(key@, value@),
            Command::ListPeers => CommandView::ListPeers,
        }
    }
}

impl CommandView {
    /// The word that asks for this command.
    pub open spec fn name(self) -> Seq<char> {
        match self {
            CommandView::Exit => "exit"@,
            CommandView::AddPeer(_) => "add_peer"@,
            CommandView::StoreValue(_, _) => "store_value"@,
            CommandView::ListPeers => "list_peers"@,
        }
    }
}

/// The message for a command that was asked for and failed with `reason`.
pub open spec fn failure_text(command: CommandView, reason: Seq<char>) -> Seq<char> {
    "Failed to run command "@ + command.name() + ", "@ + reason
}

impl Command {
    /// The word that asks for this command.
    pub fn name(&self) -> (name: String)
        ensures
            name@ == self@.name(),
    {
        match self {
            Command::Exit => String::from_str("exit"),
            Command::AddPeer(_) => String::from_str("add_peer"),
            Command::StoreValue(_, _) => String::from_str("store_value"),
            Command::ListPeers => String::from_str("list_peers"),
        }
    }

    /// The message for this command having failed with `reason`.
    pub fn failure_message(&self, reason: &str) -> (message: String)
        ensures
            message@ == failure_text(self@, reason@),
    {
        let message = String::from_str("Failed to run command ");
        let message = message.concat(self.name().as_str());
        let message = message.concat(", ");
        message.concat(reason)
    }
}

/// The words that end within `s`, and the characters of a word that has
/// begun and not ended.
pub open spec fn words_and_rest(s: Seq<char>) -> (Seq<Seq<char>>, Seq<char>)
    decreases s.len(),
{
    if s.len() == 0 {
        (Seq::empty(), Seq::empty())
    } else {
        let (words, rest) = words_and_rest(s.drop_last());
        if !is_whitespace_char(s.last()) {
            (words, rest.push(s.last()))
        } else if rest.len() > 0 {
            (words.push(rest), Seq::empty())
        } else {
            (words, rest)
        }
    }
}

/// The words of `s`: its longest runs of characters that are no whitespace.
pub open spec fn words_of(s: Seq<char>) -> Seq<Seq<char>> {
    let (words, rest) = words_and_rest(s);
    if rest.len() > 0 {
        words.push(rest)
    } else {
        words
    }
}

/// What the words of a line ask for: nothing where there is no word, a
/// command, or the message that says why they are none.
pub open spec fn command_of(words: Seq<Seq<char>>) -> Result<Option<CommandView>, Seq<char>> {
    if words.len() == 0 {
        Ok(None)
    } else if words[0] == "exit"@ {
        Ok(Some(CommandView::Exit))
    } else if words[0] == "add_peer"@ {
        if words.len() < 2 {
            Err("Failed to run command add_peer, Usage: add_node <ip:port>"@)
        } else {
            Ok(Some(CommandView::AddPeer(words[1])))
        }
    } else if words[0] == "store_value"@ {
        if words.len() < 3 {
            Err("Failed to run command store_value, Usage: store_value <key> <value>"@)
        } else if !is_node_id(words[1]) {
            Err("Failed to run command store_value, Key must be a SHA1 hash."@)
        } else {
            Ok(Some(CommandView::StoreValue(words[1], words[2])))
        }
    } else if words[0] == "list_peers"@ {
        Ok(Some(CommandView::ListPeers))
    } else {
        Err("Invalid command: "@ + words[0])
    }
}

/// A parse result over views.
pub open spec fn command_view(r: Result<Option<Command>, String>) -> Result<
    Option<CommandView>,
    Seq<char>,
> {
    match r {
        Ok(Some(command)) => Ok(Some(command@)),
        Ok(None) => Ok(None),
        Err(message) => Err(message@),
    }
}

/// The words of `line`: its longest runs of characters that are no whitespace.
pub fn words(line: &str) -> (words: Vec<String>)
    ensures
        views(words@) == words_of(line@),
{
    let v = chars_of(line);
    let n = v.len();
    let mut words: Vec<String> = Vec::new();
    let mut rest = String::new();
    let mut i: usize = 0;
    assert(views(words@) =~= Seq::empty());
    while i < n
        invariant
            n == v.len(),
            i <= n,
            (views(words@), rest@) == words_and_rest(v@.subrange(0, i as int)),
        decreases n - i,
    {
        let c = v[i];
        proof {
            let next = v@.subrange(0, i + 1);
            assert(next.drop_last() == v@.subrange(0, i as int));
            assert(next.last() == c);
        }
        if !char_is_whitespace(c) {
            push_char(&mut rest, c);
        } else if rest.as_str().unicode_len() > 0 {
            let ghost before = words@;
            words.push(rest);
            assert(views(words@) =~= views(before).push(words@.last()@));
            rest = String::new();
        }
        i = i + 1;
    }
    assert(v@.subrange(0, n as int) == v@);
    if rest.as_str().unicode_len() > 0 {
        let ghost before = words@;
        words.push(rest);
        assert(views(words@) =~= views(before).push(words@.last()@));
    }
    words
}

/// What the line `line` asks for: nothing where it is blank, a command, or
/// the message that says why it is none.
pub fn parse_command(line: &str) -> (r: Result<Option<Command>, String>)
    ensures
        command_view(r) == command_of(words_of(line@)),
{
    let parts = words(line);
    if parts.len() == 0 {
        return Ok(None);
    }
    assert(views(parts@)[0] == parts@[0]@);
    let command = parts[0].as_str();
    if same_text(command, "exit") {
        Ok(Some(Command::Exit))
    } else if same_text(command, "add_peer") {
        if parts.len() < 2 {
            return Err(
                String::from_str("Failed to run command add_peer, Usage: add_node <ip:port>"),
            );
        }
        assert(views(parts@)[1] == parts@[1]@);
        Ok(Some(Command::AddPeer(parts[1].clone())))
    } else if same_text(command, "store_value") {
        if parts.len() < 3 {
            return Err(
                String::from_str(
                    "Failed to run command store_value, Usage: store_value <key> <value>",
                ),
            );
        }
        assert(views(parts@)[1] == parts@[1]@);
        assert(views(parts@)[2] == parts@[2]@);
        if !is_valid_id(parts[1].as_str()) {
            return Err(
                String::from_str("Failed to run command store_value, Key must be a SHA1 hash."),
            );
        }
        Ok(Some(Command::StoreValue(parts[1].clone(), parts[2].clone())))
    } else if same_text(command, "list_peers") {
        Ok(Some(Command::ListPeers))
    } else {
        Err(String::from_str("Invalid command: ").concat(command))
    }
}

} // verus!
