//! The QUIC listener.

use vstd::prelude::*;
use vstd::string::*;

use crate::bytes;
use crate::config::ListenAddr;

verus! {

/// One request is one bidirectional stream.
pub const MAX_REQUEST_STREAMS: u32 = 256;

/// The peer needs a control stream and one for each direction of header compression.
pub const MAX_CONTROL_STREAMS: u32 = 8;

/// The longest idle timeout that can be announced, in milliseconds.
pub const MAX_IDLE_MS: u64 = 0x3fff_ffff_ffff_ffff;

/// The protocol a QUIC connection negotiates. One that does not has nothing to fall back
/// to.
pub fn alpn_h3() -> (r: Vec<u8>)
    ensures
        r@ == bytes::utf8("h3"@),
{
    bytes::copy("h3".as_bytes())
}

/// A QUIC socket listens on a network address, never on a path.
pub fn bind<'a>(addr: &'a ListenAddr) -> (r: Result<&'a Vec<u8>, &'a Vec<u8>>)
    ensures
        match addr {
            ListenAddr::Tcp(a) => r == Ok::<&Vec<u8>, &Vec<u8>>(a),
            ListenAddr::Unix(p) => r == Err::<&Vec<u8>, &Vec<u8>>(p),
        },
{
    match addr {
        ListenAddr::Tcp(a) => Ok(a),
        ListenAddr::Unix(p) => Err(p),
    }
}

/// The idle timeout of a listener, in milliseconds, out of the default server's
/// keep-alive timeout; none where that is off.
pub fn idle_timeout(keepalive_ms: u64) -> (r: Option<u64>)
    ensures
        r == if keepalive_ms == 0 {
            None
        } else if keepalive_ms > MAX_IDLE_MS {
            Some(MAX_IDLE_MS)
        } else {
            Some(keepalive_ms)
        },
{
    if keepalive_ms == 0 {
        None
    } else if keepalive_ms > MAX_IDLE_MS {
        Some(MAX_IDLE_MS)
    } else {
        Some(keepalive_ms)
    }
}

} // verus!
