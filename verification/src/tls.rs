//! The certificates and keys of this device, read from PEM text as `rustls`
//! reads them.
use vstd::prelude::*;

verus! {

/// The DER contents of the certificate sections of the PEM text `data`, as
/// `rustls` reads them, or `None` when it rejects the text.
pub uninterp spec fn spec_pem_certs(data: Seq<u8>) -> Option<Seq<Seq<u8>>>;

/// The DER contents of the PKCS8 private key sections of the PEM text `data`,
/// as `rustls` reads them, or `None` when it rejects the text.
pub uninterp spec fn spec_pem_pkcs8_keys(data: Seq<u8>) -> Option<Seq<Seq<u8>>>;

/// `rustls::internal::pemfile::certs` over the bytes `data`, each certificate
/// given as its DER bytes and the error mapped to `None`. The contract names
/// the result, which depends on the bytes alone.
#[verifier::external_body]
fn pem_certs(data: &[u8]) -> (res: Option<Vec<Vec<u8>>>)
    ensures
        match res {
            Some(v) => spec_pem_certs(data@) == Some(v@.map_values(|c: Vec<u8>| c@)),
            None => spec_pem_certs(data@) is None,
        },
{
    let mut rd: &[u8] = data;
    rustls::internal::pemfile::certs(&mut rd).ok().map(|v| v.into_iter().map(|c| c.0).collect())
}

/// `rustls::internal::pemfile::pkcs8_private_keys` over the bytes `data`,
/// each key given as its DER bytes and the error mapped to `None`. The
/// contract names the result, which depends on the bytes alone.
#[verifier::external_body]
fn pem_pkcs8_keys(data: &[u8]) -> (res: Option<Vec<Vec<u8>>>)
    ensures
        match res {
            Some(v) => spec_pem_pkcs8_keys(data@) == Some(v@.map_values(|k: Vec<u8>| k@)),
            None => spec_pem_pkcs8_keys(data@) is None,
        },
{
    let mut rd: &[u8] = data;
    rustls::internal::pemfile::pkcs8_private_keys(&mut rd).ok().map(
        |v| v.into_iter().map(|k| k.0).collect(),
    )
}

/// Why certificates or keys could not be read.
#[derive(Debug, Clone, Copy, PartialEq, Eq)]
pub enum PemError {
    /// The certificate file is not PEM text that `rustls` reads.
    InvalidCertificateFile,
    /// The key file is not PEM text that `rustls` reads.
    InvalidKeyFile,
}

/// The DER certificates of the PEM text `data`.
pub fn load_certs(data: &[u8]) -> (res: Result<Vec<Vec<u8>>, PemError>)
    ensures
        match spec_pem_certs(data@) {
            Some(s) => res matches Ok(v) && v@.map_values(|c: Vec<u8>| c@) == s,
            None => res == Err::<Vec<Vec<u8>>, PemError>(PemError::InvalidCertificateFile),
        },
{
    match pem_certs(data) {
        Some(v) => Ok(v),
        None => Err(PemError::InvalidCertificateFile),
    }
}

/// The DER PKCS8 private keys of the PEM text `data`.
pub fn load_keys(data: &[u8]) -> (res: Result<Vec<Vec<u8>>, PemError>)
    ensures
        match spec_pem_pkcs8_keys(data@) {
            Some(s) => res matches Ok(v) && v@.map_values(|k: Vec<u8>| k@) == s,
            None => res == Err::<Vec<Vec<u8>>, PemError>(PemError::InvalidKeyFile),
        },
{
    match pem_pkcs8_keys(data) {
        Some(v) => Ok(v),
        None => Err(PemError::InvalidKeyFile),
    }
}

} // verus!
