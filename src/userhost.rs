//! Splitting a `nick!user@host` identity (a message source) into its parts.

use vstd::prelude::*;

use crate::scan::{rest, run_end, run_len, Stop};
use crate::split::{copy_range, opt_view};

verus! {

/// Separates the nickname from the user name.
pub const BANG: u8 = 0x21;
/// Separates the user name (or the nickname) from the host.
pub const AT_SIGN: u8 = 0x40;

/// The parts of an identity `nick[!user][@host]`.
#[derive(Clone, Debug, PartialEq, Eq)]
pub struct UserHost {
    pub nick: Vec<u8>,
    pub user: Option<Vec<u8>>,
    pub host: Option<Vec<u8>>,
}

/// The parts of identity `s`: the nickname runs to the first `!` or `@`; a
/// user name follows a `!` and runs to the next `@`; the host is all that
/// follows that `@`.
pub open spec fn userhost_parts(s: Seq<u8>) -> (Seq<u8>, Option<Seq<u8>>, Option<Seq<u8>>) {
    let n = run_len(s, Stop::Either(BANG, AT_SIGN)) as int;
    if n >= s.len() {
        (s, None, None)
    } else if s[n] == AT_SIGN {
        (s.subrange(0, n), None, Some(rest(s, n + 1)))
    } else {
        let u = n + 1 + run_len(rest(s, n + 1), Stop::Byte(AT_SIGN)) as int;
        (
            s.subrange(0, n),
            Some(s.subrange(n + 1, u)),
            if u >= s.len() {
                None
            } else {
                Some(rest(s, u + 1))
            },
        )
    }
}

/// Splits identity `source` into nickname, user name and host: the
/// nickname runs to the first `!` or `@`; a user name follows a `!` and runs
/// to the next `@`; the host is all that follows that `@`. A part that is
/// not there is `None`.
pub fn split_userhost(source: &[u8]) -> (r: UserHost)
    ensures
        (r.nick@, opt_view(r.user), opt_view(r.host)) == userhost_parts(source@),
{
    let ghost s = source@;
    let n = run_end(source, 0, &Stop::Either(BANG, AT_SIGN));
    assert(rest(s, 0) =~= s);
    if n == source.len() {
        assert(s.subrange(0, n as int) =~= s);
        return UserHost { nick: copy_range(source, 0, n), user: None, host: None };
    }
    let nick = copy_range(source, 0, n);
    let len = source.len();
    if source[n] == AT_SIGN {
        let host = copy_range(source, n + 1, len);
        return UserHost { nick, user: None, host: Some(host) };
    }
    let u = run_end(source, n + 1, &Stop::Byte(AT_SIGN));
    let user = copy_range(source, n + 1, u);
    if u == len {
        UserHost { nick, user: Some(user), host: None }
    } else {
        let host = copy_range(source, u + 1, len);
        UserHost { nick, user: Some(user), host: Some(host) }
    }
}

} // verus!
