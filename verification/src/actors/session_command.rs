//! What a websocket client's text frame asks of the hub.
//!
//! `/list` asks for the rooms, `/join <room>` moves the client to a room,
//! `/listen <prefix>` subscribes it to the writes of keys under a prefix, and
//! any other text is a chat message to the client's room.

use crate::prefix::starts_with;
use vstd::prelude::*;

verus! {

/// What a text frame asks for.
pub enum SessionCommand {
    /// The names of the rooms.
    ListRooms,
    /// A move to the named room.
    Join(String),
    /// A subscription to the keys under the prefix.
    Listen(String),
    /// A chat message to the client's room.
    Say(String),
}

/// A `SessionCommand` with its strings as character sequences.
pub enum CommandView {
    ListRooms,
    Join(Seq<char>),
    Listen(Seq<char>),
    Say(Seq<char>),
}

impl View for SessionCommand {
    type V = CommandView;

    open spec fn view(&self) -> CommandView {
        match self {
            SessionCommand::ListRooms => CommandView::ListRooms,
            SessionCommand::Join(room) => CommandView::Join(room@),
            SessionCommand::Listen(prefix) => CommandView::Listen(prefix@),
            SessionCommand::Say(text) => CommandView::Say(text@),
        }
    }
}

/// What `text` asks for: `/list` exactly, or `/join ` or `/listen ` followed
/// by the room or the prefix; anything else is said to the room as it is.
pub open spec fn command_of(text: Seq<char>) -> CommandView {
    if text == "/list"@ {
        CommandView::ListRooms
    } else if "/join "@.is_prefix_of(text) {
        CommandView::Join(text.subrange(6, text.len() as int))
    } else if "/listen "@.is_prefix_of(text) {
        CommandView::Listen(text.subrange(8, text.len() as int))
    } else {
        CommandView::Say(text)
    }
}

/// Reads a client's text frame.
pub fn parse_command(text: &str) -> (res: SessionCommand)
    ensures
        res@ == command_of(text@),
{
    proof {
        reveal_strlit("/list");
        reveal_strlit("/join ");
        reveal_strlit("/listen ");
    }
    let len = text.unicode_len();
    if len == 5 && starts_with(text, "/list") {
        proof {
            assert(text@ =~= "/list"@);
        }
        SessionCommand::ListRooms
    } else if starts_with(text, "/join ") {
        SessionCommand::Join(text.substring_char(6, len).to_owned())
    } else if starts_with(text, "/listen ") {
        SessionCommand::Listen(text.substring_char(8, len).to_owned())
    } else {
        SessionCommand::Say(text.to_owned())
    }
}

} // verus!
