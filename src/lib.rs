//! The message codec of an IRC server: splitting wire lines into atoms and
//! joining them back, the IRCv3 tag codec, hostmask matching and hostname
//! validation.

use vstd::prelude::*;

pub mod hostname;
pub mod incoming;
pub mod join;
pub mod mask;
pub mod modes;
pub mod round_trip;
pub mod scan;
pub mod split;
pub mod tags;
pub mod userhost;

verus! {

/// A simple type alias for a result whose error case is an IRC error.
pub type IrcResult<T> = Result<T, IrcError>;

/// The set of errors which can be created (and then sent to the client) as part
/// of an IRC process.
///
/// String payloads are raw bytes: the protocol guarantees no text encoding.
#[non_exhaustive]
#[derive(Clone, Debug, PartialEq, Eq)]
pub enum IrcError {
    /// A message was requested for a command which this server does not know
    /// how to process (numeric 421). The field is the command as received.
    UnknownCommand(Vec<u8>),
    /// The client did not give a nickname when sending a `NICK` message to the
    /// server (numeric 431).
    NoNicknameGiven,
    /// The client gave a nickname that was illegal, such as one containing
    /// illegal characters (numeric 432). The field is the attempted nickname.
    ErroneousNickname(Vec<u8>),
    /// The client attempted to take a nickname that was already in use
    /// (numeric 433). The field is the attempted nickname.
    NicknameInUse(Vec<u8>),
    /// When merging with another server, two different clients collided because
    /// they have the same nickname (numeric 436).
    NicknameCollision(Vec<u8>),
    /// Too few parameters were supplied for a message to be processed
    /// (numeric 461). The field is the command that lacked parameters.
    NeedMoreParams(Vec<u8>),
}

} // verus!
