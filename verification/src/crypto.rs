//! The trusted boundary to the cryptographic primitives of the `wingedcap`
//! crate: sealing a message under a combination's ordered key material, and
//! recovering it. Both outside calls derive their cipher key and nonce from
//! the arguments alone, so each result is a function of the arguments and the
//! library's contracts speak of it by name.

use vstd::prelude::*;

verus! {

/// The plaintext that `wingedcap::client::decrypt` recovers from `ciphertext`
/// under the ordered key material `keys`; `None` where that call fails.
pub uninterp spec fn decrypt_spec(ciphertext: Seq<char>, keys: Seq<Seq<char>>) -> Option<Seq<char>>;

/// The ciphertext that `wingedcap::client::encrypt` produces from `message`
/// under the ordered key material `keys`; `None` where that call fails.
pub uninterp spec fn encrypt_spec(message: Seq<char>, keys: Seq<Seq<char>>) -> Option<Seq<char>>;

/// Relies on wingedcap::client::decrypt: AES-GCM under a key combined from the
/// ordered key material, with the nonce derived from that key, so equal
/// arguments give equal results.
#[verifier::external_body]
pub(crate) fn decrypt_with(ciphertext: &String, keys: &Vec<String>) -> (plaintext: Result<
    String,
    String,
>)
    ensures
        match plaintext {
            Ok(p) => decrypt_spec(ciphertext@, keys.deep_view()) == Some(p@),
            Err(_) => decrypt_spec(ciphertext@, keys.deep_view()) is None,
        },
{
    let materials: Vec<&str> = keys.iter().map(|k| k.as_str()).collect();
    wingedcap::client::decrypt(ciphertext.as_str(), materials)
}

/// Relies on wingedcap::client::encrypt: AES-GCM under a key combined from the
/// ordered key material, with the nonce derived from that key, so equal
/// arguments give equal results.
#[verifier::external_body]
pub(crate) fn encrypt_with(message: &String, keys: &Vec<String>) -> (ciphertext: Result<
    String,
    String,
>)
    ensures
        match ciphertext {
            Ok(c) => encrypt_spec(message@, keys.deep_view()) == Some(c@),
            Err(_) => encrypt_spec(message@, keys.deep_view()) is None,
        },
{
    let materials: Vec<&str> = keys.iter().map(|k| k.as_str()).collect();
    wingedcap::client::encrypt(message.as_str(), materials)
}

} // verus!
