//! TCP and Unix domain sockets, on both sides of the server.

use vstd::prelude::*;
use vstd::string::*;

use crate::bytes;

verus! {

/// What an upstream's address names.
#[derive(Debug)]
pub enum Dial<'a> {
    /// A path: `unix:/path/to.sock`.
    Unix(&'a [u8]),
    /// Anything else is `host:port`.
    Tcp(&'a [u8]),
}

/// Reads an upstream's address.
pub fn connect<'a>(addr: &'a [u8]) -> (r: Dial<'a>)
    ensures
        ({
            let prefix = bytes::utf8("unix:"@);
            if bytes::starts(addr@, prefix) {
                r matches Dial::Unix(p) && p@ == addr@.subrange(
                    prefix.len() as int,
                    addr@.len() as int,
                )
            } else {
                r matches Dial::Tcp(a) && a@ == addr@
            }
        }),
{
    let prefix: &[u8] = "unix:".as_bytes();
    if bytes::starts_with(addr, prefix) {
        Dial::Unix(&addr[prefix.len()..addr.len()])
    } else {
        Dial::Tcp(addr)
    }
}

/// What a non-blocking system call came to.
#[derive(Debug, Clone, Copy, PartialEq, Eq, Structural)]
pub enum Attempt {
    Done(usize),
    WouldBlock,
    Interrupted,
    /// There is no connection any more.
    NotConnected,
    Failed,
}

/// Whether a pooled connection can be used for a new request: alive with nothing
/// pending. A close and leftover data both rule it out.
pub fn is_reusable(probe: Attempt) -> (r: bool)
    ensures
        r == (probe == Attempt::WouldBlock),
{
    probe == Attempt::WouldBlock
}

/// What a call on a socket that is not registered with the reactor leads to.
#[derive(Debug, Clone, Copy, PartialEq, Eq, Structural)]
pub enum Pending {
    Ready(usize),
    /// From here on the reactor is needed.
    Register,
    Retry,
    Fail,
}

/// Decides what a call on an unregistered socket leads to: the first that would block
/// registers it.
pub fn pending(a: Attempt) -> (r: Pending)
    ensures
        r == match a {
            Attempt::Done(n) => Pending::Ready(n),
            Attempt::WouldBlock => Pending::Register,
            Attempt::Interrupted => Pending::Retry,
            _ => Pending::Fail,
        },
{
    match a {
        Attempt::Done(n) => Pending::Ready(n),
        Attempt::WouldBlock => Pending::Register,
        Attempt::Interrupted => Pending::Retry,
        _ => Pending::Fail,
    }
}

/// Whether a shutdown went well: a peer that closed first leaves nothing to shut down.
pub fn is_shut(a: Attempt) -> (r: bool)
    ensures
        r == (a is Done || a is NotConnected),
{
    match a {
        Attempt::Done(_) => true,
        Attempt::NotConnected => true,
        _ => false,
    }
}

/// What stands at the path of a Unix socket.
#[derive(Debug, Clone, Copy, PartialEq, Eq, Structural)]
pub enum Found {
    Missing,
    Socket,
    /// Something else.
    Other,
    /// It cannot be told.
    Unreadable,
}

/// What is done about what stands there.
#[derive(Debug, Clone, Copy, PartialEq, Eq, Structural)]
pub enum Clearing {
    /// Nothing is in the way.
    Clear,
    Remove,
    /// It is not ours to remove.
    Refuse,
    Fail,
}

/// Decides about a stale socket file left behind by an unclean shutdown. Only a socket
/// is ever removed.
pub fn unlink_stale_socket(found: Found) -> (r: Clearing)
    ensures
        r == match found {
            Found::Missing => Clearing::Clear,
            Found::Socket => Clearing::Remove,
            Found::Other => Clearing::Refuse,
            Found::Unreadable => Clearing::Fail,
        },
        r == Clearing::Remove ==> found == Found::Socket,
{
    match found {
        Found::Missing => Clearing::Clear,
        Found::Socket => Clearing::Remove,
        Found::Other => Clearing::Refuse,
        Found::Unreadable => Clearing::Fail,
    }
}

} // verus!
