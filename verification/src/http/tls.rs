//! What the secure channel needs to know before it is set up: the name by
//! which the server is to prove itself.

use rustls::pki_types::{InvalidDnsNameError, ServerName};
use vstd::prelude::*;

verus! {

/// The name of a server as the TLS library holds it. Nothing is known of
/// its inside.
#[verifier::external_type_specification]
#[verifier::external_body]
pub struct ExServerName<'a>(ServerName<'a>);

/// The TLS library's refusal of a name.
#[verifier::external_type_specification]
#[verifier::external_body]
pub struct ExInvalidDnsNameError(InvalidDnsNameError);

/// Whether the TLS library takes `host` for the name of a server: a DNS
/// name or an IP address, by its own rules.
pub uninterp spec fn names_a_server(host: Seq<char>) -> bool;

/// `ServerName::try_from` of `rustls::pki_types`, on an owned string.
///
/// Trusted, not proved: the call accepts or refuses by the text of `host`
/// alone, so the same text is always answered alike. Which texts it
/// accepts is left to the TLS library: it is named, not stated.
#[verifier::external_body]
fn server_name_from(host: String) -> (result: Result<ServerName<'static>, InvalidDnsNameError>)
    ensures
        result is Ok <==> names_a_server(host@),
{
    ServerName::try_from(host)
}

/// Why no secure channel can be set up.
#[derive(Clone, Copy, Debug, PartialEq, Eq)]
pub enum TlsError {
    /// The hostname is neither a DNS name nor an IP address.
    InvalidServerName,
}

/// Prepares the secure channel to one host.
pub struct TlsBuilder {
    hostname: String,
}

impl View for TlsBuilder {
    type V = Seq<char>;

    closed spec fn view(&self) -> Seq<char> {
        self.hostname@
    }
}

impl TlsBuilder {
    /// A builder for the host `hostname`.
    pub fn new(hostname: String) -> (builder: Self)
        ensures
            builder@ == hostname@,
    {
        Self { hostname }
    }

    /// The host that the channel goes to.
    pub fn hostname(&self) -> (host: &str)
        ensures
            host@ == self@,
    {
        self.hostname.as_str()
    }

    /// The name by which the server is to prove itself, where the
    /// hostname is one that the TLS library takes.
    pub fn name(&self) -> (result: Result<ServerName<'static>, TlsError>)
        ensures
            result is Ok <==> names_a_server(self@),
            result is Err ==> result == Err::<ServerName<'static>, TlsError>(
                TlsError::InvalidServerName,
            ),
    {
        match server_name_from(self.hostname.clone()) {
            Ok(name) => Ok(name),
            Err(_) => Err(TlsError::InvalidServerName),
        }
    }
}

} // verus!
