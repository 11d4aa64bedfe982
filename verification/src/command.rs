//! The command interpreter: from a decoded frame to one of a closed set of
//! commands, with strict arity and shape. The verb is the first element and
//! is matched whatever its case.

use crate::ascii::{decode_u64, parse_u64};
use crate::resp::{elements_of, Element, Type};
use crate::text::{is_word, same_word};
use std::borrow::Cow;
use vstd::prelude::*;
use vstd::utf8::encode_utf8;

verus! {

/// A validated request.
#[derive(Debug, PartialEq, Eq, Clone)]
pub enum Command {
    Ping,
    Echo(String),
    /// Key, value and the time to live in milliseconds, if one was given.
    SetKey(String, String, Option<u64>),
    Get(String),
    ConfigGet(String),
    Keys,
}

/// Why a frame is no command.
#[derive(Debug, PartialEq, Eq, Copy, Clone)]
pub enum CommandError {
    /// The frame is empty or its first element is no string.
    Invalid,
    /// The verb is none of the known ones.
    Unrecognized,
    /// `PING` with anything after it.
    PingFormat,
    /// `ECHO` without exactly one string after it.
    EchoFormat,
    /// `GET` without exactly one string after it.
    GetFormat,
    /// `SET` in neither of its two forms.
    SetFormat,
    /// `CONFIG` without `GET` and exactly one name after it.
    ConfigFormat,
    /// `KEYS` with anything after it.
    KeysFormat,
}

/// What a [`Command`] stands for.
pub enum Request {
    Ping,
    Echo(Seq<char>),
    SetKey(Seq<char>, Seq<char>, Option<u64>),
    Get(Seq<char>),
    ConfigGet(Seq<char>),
    Keys,
}

impl View for Command {
    type V = Request;

    open spec fn view(&self) -> Request {
        match *self {
            Command::Ping => Request::Ping,
            Command::Echo(text) => Request::Echo(text@),
            Command::SetKey(key, value, ttl) => Request::SetKey(key@, value@, ttl),
            Command::Get(key) => Request::Get(key@),
            Command::ConfigGet(name) => Request::ConfigGet(name@),
            Command::Keys => Request::Keys,
        }
    }
}

/// The text of a string element, simple or bulk; `None` for an integer.
pub open spec fn text_of(e: Element) -> Option<Seq<char>> {
    match e {
        Element::Simple(t) => Some(t),
        Element::Bulk(t) => Some(t),
        Element::Integer(_) => None,
    }
}

/// The elements of `frame` from index 1 on are all strings.
pub open spec fn arguments_are_text(frame: Seq<Element>) -> bool {
    forall|i: int| 1 <= i < frame.len() ==> text_of(#[trigger] frame[i]) is Some
}

/// `ECHO <text>`: exactly two elements, the second a string.
pub open spec fn interpret_echo(frame: Seq<Element>) -> Result<Request, CommandError> {
    if frame.len() == 2 && arguments_are_text(frame) {
        Ok(Request::Echo(text_of(frame[1])->0))
    } else {
        Err(CommandError::EchoFormat)
    }
}

/// `GET <key>`: exactly two elements, the second a string.
pub open spec fn interpret_get(frame: Seq<Element>) -> Result<Request, CommandError> {
    if frame.len() == 2 && arguments_are_text(frame) {
        Ok(Request::Get(text_of(frame[1])->0))
    } else {
        Err(CommandError::GetFormat)
    }
}

/// `SET <key> <value>` or `SET <key> <value> PX <ms>`: three strings, or
/// five of which the fourth is the word `PX` and the fifth an unsigned
/// decimal numeral of at most `u64::MAX`.
pub open spec fn interpret_set(frame: Seq<Element>) -> Result<Request, CommandError> {
    if frame.len() == 3 && arguments_are_text(frame) {
        Ok(Request::SetKey(text_of(frame[1])->0, text_of(frame[2])->0, None))
    } else if frame.len() == 5 && arguments_are_text(frame) && is_word(
        text_of(frame[3])->0,
        "px"@,
    ) && decode_u64(encode_utf8(text_of(frame[4])->0)) is Some {
        Ok(
            Request::SetKey(
                text_of(frame[1])->0,
                text_of(frame[2])->0,
                decode_u64(encode_utf8(text_of(frame[4])->0)),
            ),
        )
    } else {
        Err(CommandError::SetFormat)
    }
}

/// `CONFIG GET <name>`: the verb, the word `GET` and one name, all strings.
pub open spec fn interpret_config(frame: Seq<Element>) -> Result<Request, CommandError> {
    if frame.len() == 3 && arguments_are_text(frame) && is_word(text_of(frame[1])->0, "get"@) {
        Ok(Request::ConfigGet(text_of(frame[2])->0))
    } else {
        Err(CommandError::ConfigFormat)
    }
}

/// The command that a frame asks for, or why it asks for none.
pub open spec fn interpret(frame: Seq<Element>) -> Result<Request, CommandError> {
    if frame.len() == 0 {
        Err(CommandError::Invalid)
    } else {
        match text_of(frame[0]) {
            None => Err(CommandError::Invalid),
            Some(verb) => if is_word(verb, "ping"@) {
                if frame.len() == 1 {
                    Ok(Request::Ping)
                } else {
                    Err(CommandError::PingFormat)
                }
            } else if is_word(verb, "echo"@) {
                interpret_echo(frame)
            } else if is_word(verb, "get"@) {
                interpret_get(frame)
            } else if is_word(verb, "set"@) {
                interpret_set(frame)
            } else if is_word(verb, "config"@) {
                interpret_config(frame)
            } else if is_word(verb, "keys"@) {
                if frame.len() == 1 {
                    Ok(Request::Keys)
                } else {
                    Err(CommandError::KeysFormat)
                }
            } else {
                Err(CommandError::Unrecognized)
            },
        }
    }
}

/// The text of the element at `i`, if it is a string.
fn text_at<'b, 'a>(frame: &'b Vec<Type<'a>>, i: usize) -> (r: Option<&'b str>)
    requires
        i < frame@.len(),
    ensures
        match text_of(frame@[i as int]@) {
            Some(t) => r matches Some(s) && s@ == t,
            None => r is None,
        },
{
    match &frame[i] {
        Type::Integer(_) => None,
        Type::String(s, _) => {
            match s {
                Cow::Borrowed(b) => {
                    let t: &str = *b;
                    Some(t)
                },
                Cow::Owned(o) => Some(o.as_str()),
            }
        },
    }
}

/// Whether the elements from index 1 on are all strings.
fn all_arguments_text<'a>(frame: &Vec<Type<'a>>) -> (r: bool)
    ensures
        r == arguments_are_text(elements_of(frame@)),
{
    let mut i: usize = 1;
    while i < frame.len()
        invariant
            1 <= i,
            forall|j: int|
                1 <= j < i && j < frame@.len() ==> text_of(
                    #[trigger] elements_of(frame@)[j],
                ) is Some,
        decreases frame@.len() - i,
    {
        if text_at(frame, i).is_none() {
            assert(text_of(elements_of(frame@)[i as int]) is None);
            return false;
        }
        i = i + 1;
    }
    true
}

/// The text of the element at `i` as an owned string.
fn owned_at<'a>(frame: &Vec<Type<'a>>, i: usize) -> (r: String)
    requires
        1 <= i < frame@.len(),
        arguments_are_text(elements_of(frame@)),
    ensures
        r@ == text_of(elements_of(frame@)[i as int])->0,
{
    assert(text_of(elements_of(frame@)[i as int]) is Some);
    match text_at(frame, i) {
        Some(s) => s.to_owned(),
        None => String::new(),
    }
}

/// Whether the element at `i` is the word `word`.
fn word_at<'a>(frame: &Vec<Type<'a>>, i: usize, word: &str) -> (r: bool)
    requires
        1 <= i < frame@.len(),
        arguments_are_text(elements_of(frame@)),
    ensures
        r == is_word(text_of(elements_of(frame@)[i as int])->0, word@),
{
    assert(text_of(elements_of(frame@)[i as int]) is Some);
    match text_at(frame, i) {
        Some(s) => same_word(s, word),
        None => false,
    }
}

impl CommandError {
    /// The reason in words, as it is sent back to the client.
    pub fn message(&self) -> (r: &'static str)
        ensures
            r@ == self.reason(),
    {
        match self {
            CommandError::Invalid => "invalid command",
            CommandError::Unrecognized => "unrecognized command",
            CommandError::PingFormat => "Invalid ping command format",
            CommandError::EchoFormat => "Invalid echo command format",
            CommandError::GetFormat => "Invalid get command format",
            CommandError::SetFormat => "Invalid set command format",
            CommandError::ConfigFormat => "Invalid config command format",
            CommandError::KeysFormat => "Invalid keys command format",
        }
    }

    /// The reason that [`CommandError::message`] gives.
    pub open spec fn reason(&self) -> Seq<char> {
        match *self {
            CommandError::Invalid => "invalid command"@,
            CommandError::Unrecognized => "unrecognized command"@,
            CommandError::PingFormat => "Invalid ping command format"@,
            CommandError::EchoFormat => "Invalid echo command format"@,
            CommandError::GetFormat => "Invalid get command format"@,
            CommandError::SetFormat => "Invalid set command format"@,
            CommandError::ConfigFormat => "Invalid config command format"@,
            CommandError::KeysFormat => "Invalid keys command format"@,
        }
    }
}

impl Command {
    /// Interprets a decoded frame. Returns the command it asks for, or the
    /// reason why it asks for none.
    pub fn try_from<'a>(t: Vec<Type<'a>>) -> (r: Result<Command, CommandError>)
        ensures
            match interpret(elements_of(t@)) {
                Ok(request) => r matches Ok(c) && c@ == request,
                Err(e) => r matches Err(x) && x == e,
            },
    {
        let ghost frame = elements_of(t@);
        let n: usize = t.len();
        if n == 0 {
            return Err(CommandError::Invalid);
        }
        let verb: &str = match text_at(&t, 0) {
            None => {
                return Err(CommandError::Invalid);
            },
            Some(s) => s,
        };
        let texts: bool = all_arguments_text(&t);
        if same_word(verb, "ping") {
            if n == 1 {
                Ok(Command::Ping)
            } else {
                Err(CommandError::PingFormat)
            }
        } else if same_word(verb, "echo") {
            if n == 2 && texts {
                Ok(Command::Echo(owned_at(&t, 1)))
            } else {
                Err(CommandError::EchoFormat)
            }
        } else if same_word(verb, "get") {
            if n == 2 && texts {
                Ok(Command::Get(owned_at(&t, 1)))
            } else {
                Err(CommandError::GetFormat)
            }
        } else if same_word(verb, "set") {
            if n == 3 && texts {
                Ok(Command::SetKey(owned_at(&t, 1), owned_at(&t, 2), None))
            } else if n == 5 && texts && word_at(&t, 3, "px") {
                let ms: String = owned_at(&t, 4);
                match parse_u64(ms.as_str().as_bytes()) {
                    Some(ttl) => Ok(Command::SetKey(owned_at(&t, 1), owned_at(&t, 2), Some(ttl))),
                    None => Err(CommandError::SetFormat),
                }
            } else {
                Err(CommandError::SetFormat)
            }
        } else if same_word(verb, "config") {
            if n == 3 && texts && word_at(&t, 1, "get") {
                Ok(Command::ConfigGet(owned_at(&t, 2)))
            } else {
                Err(CommandError::ConfigFormat)
            }
        } else if same_word(verb, "keys") {
            if n == 1 {
                Ok(Command::Keys)
            } else {
                Err(CommandError::KeysFormat)
            }
        } else {
            Err(CommandError::Unrecognized)
        }
    }
}

} // verus!
