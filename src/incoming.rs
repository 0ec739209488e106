//! The incoming messages of an IRC server, and the parser that builds them
//! from a line of bytes.

use vstd::prelude::*;

use vstd::slice::slice_to_vec;

use crate::split::{opt_view, split_line, Atoms, AtomsView};
use crate::IrcError;

verus! {

#[verifier::external_type_specification]
#[verifier::external_body]
pub struct ExErrorKind(std::io::ErrorKind);

/// Relies on the `Clone` of `std::io::ErrorKind`, a field-less `Copy` enum:
/// the clone is the value itself.
pub assume_specification[ <std::io::ErrorKind as Clone>::clone ](k: &std::io::ErrorKind) -> (r:
    std::io::ErrorKind)
    ensures
        r == *k,
;

/// Why a message could not be parsed.
#[derive(Clone, Debug, PartialEq, Eq)]
pub enum ParseError {
    /// The message was incorrect, and the client should be notified.
    Irc(IrcError),
    /// Reading the input failed; the kind of failure is given.
    Io(std::io::ErrorKind),
    /// The input ended (the connection closed) before the line was complete.
    End,
    /// The message was malformed in a way that no IRC error code covers.
    Malformed,
}

/// A parsed incoming message: where it came from, and what it asks.
#[derive(Clone, Debug, PartialEq, Eq)]
pub struct Message {
    /// The server that the message first came from; always
    /// `None` for a message received directly from a client.
    pub source: Option<Vec<u8>>,
    /// The kind of the message, with its parameters.
    pub kind: MessageKind,
}

/// The kinds of incoming message that this server recognises. A new kind
/// comes with its own rule on the number of parameters.
///
/// String fields are bytes, as IRC guarantees no character encoding; each
/// message owns its own buffers.
#[non_exhaustive]
#[derive(Clone, Debug, PartialEq, Eq)]
pub enum MessageKind {
    /// Sets the user's nickname; the field holds the nickname's bytes.
    Nick(Vec<u8>),
}

/// `b` with an ASCII lower-case letter made upper-case.
pub open spec fn upper_byte(b: u8) -> u8 {
    if 0x61 <= b <= 0x7a {
        (b - 0x20) as u8
    } else {
        b
    }
}

/// `v` with its ASCII lower-case letters made upper-case.
pub open spec fn ascii_upper(v: Seq<u8>) -> Seq<u8> {
    v.map_values(|b: u8| upper_byte(b))
}

/// The verb `NICK`.
pub open spec fn nick_verb() -> Seq<u8> {
    seq![0x4eu8, 0x49u8, 0x43u8, 0x4bu8]
}

/// Whether `r` is the message, or the error, that atoms `a` make: the verb
/// is matched without regard to case; a known verb with too few parameters
/// gives `NeedMoreParams`, and `NICK` with more than one gives
/// `ErroneousNickname` with the first; an error echoes the verb as written.
pub open spec fn message_from(r: Result<Message, ParseError>, a: AtomsView) -> bool {
    if ascii_upper(a.verb) != nick_verb() {
        match r {
            Err(ParseError::Irc(IrcError::UnknownCommand(v))) => v@ == a.verb,
            _ => false,
        }
    } else if a.params.len() == 0 {
        match r {
            Err(ParseError::Irc(IrcError::NeedMoreParams(v))) => v@ == a.verb,
            _ => false,
        }
    } else if a.params.len() == 1 {
        match r {
            Ok(m) => opt_view(m.source) == a.source && match m.kind {
                MessageKind::Nick(n) => n@ == a.params[0],
            },
            _ => false,
        }
    } else {
        match r {
            Err(ParseError::Irc(IrcError::ErroneousNickname(n))) => n@ == a.params[0],
            _ => false,
        }
    }
}

/// Whether `v` is `NICK`, in any case.
fn is_nick(v: &[u8]) -> (r: bool)
    ensures
        r == (ascii_upper(v@) == nick_verb()),
{
    if v.len() != 4 {
        assert(ascii_upper(v@).len() != nick_verb().len());
        return false;
    }
    let mut i: usize = 0;
    while i < 4
        invariant
            i <= 4,
            v@.len() == 4,
            forall|j: int| 0 <= j < i ==> upper_byte(v@[j]) == #[trigger] nick_verb()[j],
        decreases 4 - i,
    {
        let b = v[i];
        let u = if 0x61 <= b && b <= 0x7a {
            b - 0x20
        } else {
            b
        };
        let n: u8 = if i == 0 {
            0x4e
        } else if i == 1 {
            0x49
        } else if i == 2 {
            0x43
        } else {
            0x4b
        };
        if u != n {
            assert(ascii_upper(v@)[i as int] != nick_verb()[i as int]);
            return false;
        }
        i = i + 1;
    }
    assert(ascii_upper(v@) =~= nick_verb());
    true
}

/// A copy of the bytes of `v`.
fn copy_bytes(v: &Vec<u8>) -> (r: Vec<u8>)
    ensures
        r@ == v@,
{
    slice_to_vec(v.as_slice())
}

impl Message {
    /// The message that atoms `a` make, or the IRC error that they call for.
    pub fn from_atoms(a: &Atoms) -> (r: Result<Message, ParseError>)
        ensures
            message_from(r, a@),
    {
        if !is_nick(a.verb.as_slice()) {
            return Err(ParseError::Irc(IrcError::UnknownCommand(copy_bytes(&a.verb))));
        }
        if a.params.len() == 0 {
            return Err(ParseError::Irc(IrcError::NeedMoreParams(copy_bytes(&a.verb))));
        }
        let first = copy_bytes(&a.params[0]);
        assert(first@ == a@.params[0]);
        if a.params.len() == 1 {
            let source = match &a.source {
                Some(x) => Some(copy_bytes(x)),
                None => None,
            };
            Ok(Message { source, kind: MessageKind::Nick(first) })
        } else {
            Err(ParseError::Irc(IrcError::ErroneousNickname(first)))
        }
    }

    /// Reads the line at the start of `input` (up to and including its CRLF)
    /// and builds the message it holds.
    ///
    /// Fails with `End` where the input ends before the line does, with
    /// `Malformed` where the line breaks the wire grammar, and with an IRC
    /// error where the message is well formed but wrong (see `from_atoms`).
    pub fn parse_line(input: &[u8]) -> (r: Result<Message, ParseError>)
        ensures
            match split_line(input@) {
                Ok((a, n)) => message_from(r, a),
                Err(e) => r is Err && r->Err_0 == e,
            },
    {
        match Atoms::split(input) {
            Ok((a, n)) => Message::from_atoms(&a),
            Err(e) => Err(e),
        }
    }
}

} // verus!
