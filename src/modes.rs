//! The user and channel modes of IRC.

use vstd::prelude::*;

verus! {

/// All user modes, as a group of flags.
#[derive(Debug)]
pub struct UserModes {
    /// `i`: marks a user as invisible.
    pub i: bool,
    /// `s`: marks a user for receipt of server notices.
    pub s: bool,
    /// `w`: the user receives wallops.
    pub w: bool,
    /// `o`: operator flag.
    pub o: bool,
}

/// All channel modes, as a group of flags.
#[derive(Debug)]
pub struct ChannelModes {
    /// `o`: give/take channel operator privileges.
    pub o: bool,
    /// `p`: private channel flag.
    pub p: bool,
    /// `s`: secret channel flag.
    pub s: bool,
    /// `i`: invite-only channel flag.
    pub i: bool,
    /// `t`: topic settable by channel operator only.
    pub t: bool,
    /// `n`: no messages to the channel from clients on the outside.
    pub n: bool,
    /// `m`: moderated channel.
    pub m: bool,
    /// `l`: a user limit is set on the channel.
    pub l: bool,
    /// `b`: a ban mask keeps users out.
    pub b: bool,
    /// `v`: give/take the ability to speak on a moderated channel.
    pub v: bool,
    /// `k`: a channel key (password) is set.
    pub k: bool,
}

} // verus!
