//! Defaults of the configuration file.

use vstd::prelude::*;

verus! {

/// The idle timeout of a TLS, HTTPS, H3 or QUIC listener, in milliseconds.
pub fn default_timeout() -> (r: u64)
    ensures
        r == 3000,
{
    3000
}

/// The path of the DNS-over-HTTPS endpoint.
pub fn default_http_endpoint() -> (r: String)
    ensures
        r@ == "/dns-query"@,
{
    String::from_str("/dns-query")
}

} // verus!
