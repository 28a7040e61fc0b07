//! Which requests the local server answers.

use crate::exports;
use crate::text;
use vstd::prelude::*;

verus! {

/// The port of the local server.
pub const PORT: u16 = 17893;

/// The host that a header names, without a port.
pub open spec fn bare_host(h: Seq<char>) -> Seq<char> {
    match exports::rsplit(h) {
        Some((a, _)) => a,
        None => h,
    }
}

/// The header names this machine.
pub open spec fn is_own_host(h: Seq<char>) -> bool {
    let host = bare_host(h);
    host == "localhost"@ || host == "127.0.0.1"@ || h == "[::1]"@ || host == "[::1]"@
}

/// The header names this machine, with a port or without.
pub fn host_ok(h: &str) -> (r: bool)
    ensures
        r == is_own_host(h@),
{
    let host = match exports::rsplit_colon(h) {
        Some((a, _)) => a,
        None => text::copy(h),
    };
    text::same_text(host.as_str(), "localhost") || text::same_text(host.as_str(), "127.0.0.1")
        || text::same_text(h, "[::1]") || text::same_text(host.as_str(), "[::1]")
}

/// The header names a page of this server, or one without an origin.
pub open spec fn is_own_origin(o: Seq<char>) -> bool {
    o == "http://localhost:17893"@ || o == "http://127.0.0.1:17893"@ || o == "null"@
}

/// The header names a page of this server, or one without an origin.
pub fn origin_ok(o: &str) -> (r: bool)
    ensures
        r == is_own_origin(o@),
{
    text::same_text(o, "http://localhost:17893") || text::same_text(o, "http://127.0.0.1:17893")
        || text::same_text(o, "null")
}

/// Why a request is turned away.
#[derive(Debug, Clone, Copy, PartialEq, Eq, Structural)]
pub enum Turned {
    BadHost,
    CrossOrigin,
}

impl Turned {
    /// The status and the words of the answer.
    pub fn response(&self) -> (r: (u16, &'static str))
        ensures
            match *self {
                Turned::BadHost => r.0 == 403 && r.1@ == "bad host"@,
                Turned::CrossOrigin => r.0 == 403 && r.1@
                    == "cross-origin requests are not allowed"@,
            },
    {
        match self {
            Turned::BadHost => (403, "bad host"),
            Turned::CrossOrigin => (403, "cross-origin requests are not allowed"),
        }
    }
}

/// A request is answered unless a header that it carries names another host or
/// another origin. A header that is missing turns nothing away.
pub fn guard(host: &Option<String>, origin: &Option<String>) -> (r: Result<(), Turned>)
    ensures
        r == if host matches Some(h) && !is_own_host(h@) {
            Err::<(), Turned>(Turned::BadHost)
        } else if origin matches Some(o) && !is_own_origin(o@) {
            Err::<(), Turned>(Turned::CrossOrigin)
        } else {
            Ok::<(), Turned>(())
        },
{
    match host {
        Some(h) => if !host_ok(h.as_str()) {
            return Err(Turned::BadHost);
        },
        None => {},
    }
    match origin {
        Some(o) => if !origin_ok(o.as_str()) {
            return Err(Turned::CrossOrigin);
        },
        None => {},
    }
    Ok(())
}

/// A request is for this program if its host, with any port or none, is `localhost` or
/// the loopback address of either kind, and for no other host.
pub proof fn requests_are_for_this_machine(host: Seq<char>, port: Seq<char>)
    requires
        !port.contains(':'),
    ensures
        is_own_host(host + seq![':'] + port) == (host == "localhost"@ || host == "127.0.0.1"@ || host
            == "[::1]"@ || host + seq![':'] + port == "[::1]"@),
        !host.contains(':') ==> is_own_host(host) == (host == "localhost"@ || host
            == "127.0.0.1"@),
        is_own_host("[::1]"@),
{
    exports::ids_are_cut_at_their_last_colon(host, port);
    if !host.contains(':') {
        exports::ids_are_cut_at_their_last_colon(Seq::empty(), host);
        reveal_strlit("[::1]");
        assert("[::1]"@[1] == ':');
        assert("[::1]"@.contains(':'));
    }
}

/// A page may call this program only if it came from it, or from a file.
pub proof fn pages_are_of_this_program(o: Seq<char>)
    ensures
        is_own_origin(o) <==> o == "http://localhost:17893"@ || o == "http://127.0.0.1:17893"@ || o
            == "null"@,
{
}

} // verus!
