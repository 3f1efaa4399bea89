//! The loopback event channel between the `notify` hook and the running
//! bot: what it carries and where it listens.
use vstd::prelude::*;
use crate::text::{dec, push_dec, push_str};

verus! {

/// A notification handed from a qBittorrent hook to the running bot.
#[derive(Debug, Clone)]
pub struct EventPayload {
    pub message: String,
}

/// The address the `notify` hook posts its event to.
pub open spec fn event_url_text(port: u16) -> Seq<char> {
    "http://127.0.0.1:"@ + dec(port as nat) + "/event"@
}

/// The address the `notify` hook posts its event to: the event server on
/// the loopback interface at the configured port.
pub fn event_url(port: u16) -> (s: String)
    ensures
        s@ == event_url_text(port),
{
    let mut s = String::from_str("http://127.0.0.1:");
    push_dec(&mut s, port as u64);
    push_str(&mut s, "/event");
    s
}

/// The path the event server accepts events on.
pub fn event_path() -> (s: String)
    ensures
        s@ == "/event"@,
{
    String::from_str("/event")
}

/// The loopback address, as four octets, the event server binds to.
pub fn loopback() -> (a: [u8; 4])
    ensures
        a@ == seq![127u8, 0u8, 0u8, 1u8],
{
    let a: [u8; 4] = [127, 0, 0, 1];
    assert(a@ =~= seq![127u8, 0u8, 0u8, 1u8]);
    a
}

} // verus!
