//! What the TLS side of a server is made of: a certificate chain, a private
//! key and the protocols on offer.
use tokio_rustls::rustls::{Certificate, PrivateKey, ServerConfig};
use vstd::prelude::*;

verus! {

/// The error of an input or output operation, carried through as it is.
#[verifier::external_type_specification]
#[verifier::external_body]
pub struct ExIoError(std::io::Error);

/// The error of the TLS implementation, carried through as it is.
#[verifier::external_type_specification]
#[verifier::external_body]
pub struct ExTlsError(tokio_rustls::rustls::Error);

/// The setup of a TLS server.
#[verifier::external_type_specification]
#[verifier::external_body]
pub struct ExServerConfig(tokio_rustls::rustls::ServerConfig);

/// Byte strings as sequences.
pub open spec fn nested(v: Seq<Vec<u8>>) -> Seq<Seq<u8>> {
    v.map_values(|b: Vec<u8>| b@)
}

/// The certificates that `rustls_pemfile::certs` finds in PEM text; `None`
/// when it reports an error.
pub uninterp spec fn pem_certs(pem: Seq<u8>) -> Option<Seq<Seq<u8>>>;

/// The private keys that `rustls_pemfile::pkcs8_private_keys` finds in PEM
/// text; `None` when it reports an error.
pub uninterp spec fn pem_keys(pem: Seq<u8>) -> Option<Seq<Seq<u8>>>;

/// Takes the certificates out of PEM text (`rustls_pemfile::certs`). The
/// result depends on the text alone; what it is, and when there is an error,
/// is left to the name `pem_certs`.
#[verifier::external_body]
pub(crate) fn read_certs(pem: &[u8]) -> (r: Result<Vec<Vec<u8>>, std::io::Error>)
    ensures
        match r {
            Ok(certs) => pem_certs(pem@) == Some(nested(certs@)),
            Err(_) => pem_certs(pem@) is None,
        },
{
    let mut reader = pem;
    rustls_pemfile::certs(&mut reader)
}

/// Takes the PKCS #8 private keys out of PEM text
/// (`rustls_pemfile::pkcs8_private_keys`). The result depends on the text
/// alone; what it is, and when there is an error, is left to the name
/// `pem_keys`.
#[verifier::external_body]
pub(crate) fn read_keys(pem: &[u8]) -> (r: Result<Vec<Vec<u8>>, std::io::Error>)
    ensures
        match r {
            Ok(keys) => pem_keys(pem@) == Some(nested(keys@)),
            Err(_) => pem_keys(pem@) is None,
        },
{
    let mut reader = pem;
    rustls_pemfile::pkcs8_private_keys(&mut reader)
}

/// The certificate chain and the private key that a server presents.
pub uninterp spec fn served_identity(config: ServerConfig) -> (Seq<Seq<u8>>, Seq<u8>);

/// The protocols that a server offers to negotiate, best first.
pub uninterp spec fn served_protocols(config: ServerConfig) -> Seq<Seq<u8>>;

/// Whether a server speaks TLS 1.2.
pub uninterp spec fn speaks_tls12(config: ServerConfig) -> bool;

/// Whether a server speaks TLS 1.3.
pub uninterp spec fn speaks_tls13(config: ServerConfig) -> bool;

/// The cipher suites that a server is set up with, by their registered
/// numbers, best first. Of these it uses those of the versions it speaks.
pub uninterp spec fn served_suites(config: ServerConfig) -> Seq<u16>;

/// The groups that a server exchanges keys in, by their registered numbers,
/// best first.
pub uninterp spec fn served_groups(config: ServerConfig) -> Seq<u16>;

/// Whether a server asks its clients for certificates.
pub uninterp spec fn asks_clients(config: ServerConfig) -> bool;

/// Every cipher suite there is: for TLS 1.3 AES-256-GCM, AES-128-GCM and
/// ChaCha20-Poly1305, and for TLS 1.2 the same three with ECDHE and ECDSA, and
/// with ECDHE and RSA.
pub open spec fn every_suite() -> Seq<u16> {
    seq![0x1302, 0x1301, 0x1303, 0xc02c, 0xc02b, 0xcca9, 0xc030, 0xc02f, 0xcca8]
}

/// Every group there is: X25519, P-256 and P-384.
pub open spec fn every_group() -> Seq<u16> {
    seq![0x1d, 0x17, 0x18]
}

/// Two setups that differ at most in the protocols on offer.
pub open spec fn same_but_protocols(a: ServerConfig, b: ServerConfig) -> bool {
    &&& served_identity(a) == served_identity(b)
    &&& speaks_tls12(a) == speaks_tls12(b)
    &&& speaks_tls13(a) == speaks_tls13(b)
    &&& served_suites(a) == served_suites(b)
    &&& served_groups(a) == served_groups(b)
    &&& asks_clients(a) == asks_clients(b)
}

/// Sets up a server with the default cipher suites and protocol versions
/// (`ServerConfig::builder` of `rustls`, `with_safe_defaults`,
/// `with_no_client_auth`, `with_single_cert`). When it succeeds, the server
/// presents this chain and this key, speaks TLS 1.2 and 1.3 with every cipher
/// suite and key exchange group there is, asks its clients for no certificate
/// and offers no protocols. It fails when the key cannot be used; since the
/// machine's source of randomness has a part in that, when it does is not
/// stated.
#[verifier::external_body]
pub(crate) fn default_config(chain: Vec<Vec<u8>>, key: Vec<u8>) -> (r: Result<
    ServerConfig,
    tokio_rustls::rustls::Error,
>)
    ensures
        r matches Ok(config) ==> served_identity(config) == (nested(chain@), key@),
        r matches Ok(config) ==> served_protocols(config) == Seq::<Seq<u8>>::empty(),
        r matches Ok(config) ==> speaks_tls12(config),
        r matches Ok(config) ==> speaks_tls13(config),
        r matches Ok(config) ==> served_suites(config) == every_suite(),
        r matches Ok(config) ==> served_groups(config) == every_group(),
        r matches Ok(config) ==> !asks_clients(config),
{
    let certs = chain.into_iter().map(Certificate).collect();
    ServerConfig::builder()
        .with_safe_defaults()
        .with_no_client_auth()
        .with_single_cert(certs, PrivateKey(key))
}

/// Sets up a server for TLS 1.2 with every cipher suite and key exchange
/// group there is (`ServerConfig::builder` of `rustls`, `with_cipher_suites`,
/// `with_kx_groups`, `with_protocol_versions`, `with_no_client_auth`,
/// `with_single_cert`). When it succeeds, the server presents this chain and
/// this key, speaks TLS 1.2 and not 1.3, has those suites and groups, asks its
/// clients for no certificate and offers no protocols. It fails when the key
/// cannot be used; since the machine's source of randomness has a part in
/// that, when it does is not stated.
#[verifier::external_body]
pub(crate) fn tls12_config(chain: Vec<Vec<u8>>, key: Vec<u8>) -> (r: Result<
    ServerConfig,
    tokio_rustls::rustls::Error,
>)
    ensures
        r matches Ok(config) ==> served_identity(config) == (nested(chain@), key@),
        r matches Ok(config) ==> served_protocols(config) == Seq::<Seq<u8>>::empty(),
        r matches Ok(config) ==> speaks_tls12(config),
        r matches Ok(config) ==> !speaks_tls13(config),
        r matches Ok(config) ==> served_suites(config) == every_suite(),
        r matches Ok(config) ==> served_groups(config) == every_group(),
        r matches Ok(config) ==> !asks_clients(config),
{
    let certs = chain.into_iter().map(Certificate).collect();
    ServerConfig::builder()
        .with_cipher_suites(&tokio_rustls::rustls::ALL_CIPHER_SUITES)
        .with_kx_groups(&tokio_rustls::rustls::ALL_KX_GROUPS)
        .with_protocol_versions(&[&tokio_rustls::rustls::version::TLS12])?
        .with_no_client_auth()
        .with_single_cert(certs, PrivateKey(key))
}

/// Sets the protocols that a server offers (the field `alpn_protocols` of
/// `ServerConfig`): these and no others, and nothing else changes.
#[verifier::external_body]
pub(crate) fn offer(config: ServerConfig, protocols: Vec<Vec<u8>>) -> (r: ServerConfig)
    ensures
        served_protocols(r) == nested(protocols@),
        same_but_protocols(r, config),
{
    let mut config = config;
    config.alpn_protocols = protocols;
    config
}

/// Why no TLS server could be set up.
#[derive(Debug)]
pub enum SetupError {
    /// The certificate file is no PEM text.
    CertificatePem(std::io::Error),
    /// The key file is no PEM text.
    KeyPem(std::io::Error),
    /// There is no certificate, or no key.
    CertsEmpty,
    /// The key cannot be used.
    Rejected(tokio_rustls::rustls::Error),
}

/// A certificate chain and the private key that goes with it.
#[derive(Debug, PartialEq, Eq)]
pub struct Identity {
    pub chain: Vec<Vec<u8>>,
    pub key: Vec<u8>,
}

impl View for Identity {
    type V = (Seq<Seq<u8>>, Seq<u8>);

    open spec fn view(&self) -> (Seq<Seq<u8>>, Seq<u8>) {
        (nested(self.chain@), self.key@)
    }
}

/// Identities as contracts speak of them hold what the identities hold.
pub proof fn lemma_views(identity: Identity, i: int)
    requires
        0 <= i < identity.chain@.len(),
    ensures
        identity@.0.len() == identity.chain@.len(),
        identity@.0[i] == identity.chain@[i]@,
        identity@.1 == identity.key@,
{
}

} // verus!
