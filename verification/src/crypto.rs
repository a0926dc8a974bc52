//! The cipher provider: AES-128 in CBC mode with PKCS#7 padding, under a
//! fixed key and initialization vector embedded in the program.
//!
//! The ciphertext file is not self-describing: whoever decrypts it must hold
//! the same constants. A fresh cipher context is built inside each call, so
//! no chaining state leaks from one operation to the next. Using one fixed
//! key and IV for every file is a deliberate simplicity trade-off of the
//! store's design, accepted for the threat model of obscuring a local file
//! from casual inspection.

use vstd::prelude::*;
use aes_soft::Aes128;
use block_modes::{BlockMode, Cbc};
use block_modes::block_padding::Pkcs7;

verus! {

/// The cipher's block size in bytes.
pub const BLOCK_SIZE: usize = 16;

/// The length PKCS#7 padding gives the ciphertext of a plaintext of `n` bytes.
pub open spec fn padded_len(n: nat) -> nat {
    (n / 16 + 1) * 16
}

/// The ciphertext that the store's cipher produces for a given plaintext.
///
/// The key, IV, algorithm and padding are fixed, so the ciphertext is a
/// function of the plaintext alone.
pub uninterp spec fn enc_of(plain: Seq<u8>) -> Seq<u8>;

/// Relies on `block_modes::BlockMode::encrypt_vec` for `Cbc<Aes128, Pkcs7>`:
/// with the fixed key and IV the ciphertext is a deterministic function of
/// the plaintext, and PKCS#7 padding always rounds the ciphertext up to the
/// next block boundary.
#[verifier::external_body]
pub(crate) fn encrypt_bytes(plain: &Vec<u8>) -> (r: Vec<u8>)
    ensures
        r@ == enc_of(plain@),
        r@.len() == padded_len(plain@.len()),
{
    let key: [u8; 16] = [
        0x00, 0x01, 0x02, 0x03, 0x04, 0x05, 0x06, 0x07, 0x08, 0x09, 0x0a, 0x0b, 0x0c, 0x0d, 0x0e,
        0x0f,
    ];
    let iv: [u8; 16] = [
        0xf0, 0xf1, 0xf2, 0xf3, 0xf4, 0xf5, 0xf6, 0xf7, 0xf8, 0xf9, 0xfa, 0xfb, 0xfc, 0xfd, 0xfe,
        0xff,
    ];
    let cipher = Cbc::<Aes128, Pkcs7>::new_var(&key, &iv).unwrap();
    cipher.encrypt_vec(plain.as_slice())
}

/// Relies on `block_modes::BlockMode::decrypt_vec` for `Cbc<Aes128, Pkcs7>`:
/// under the same fixed key and IV it inverts `encrypt_vec`, and it fails on
/// empty input, on input whose length is not a multiple of the block size,
/// and on input whose padding is invalid after decryption.
#[verifier::external_body]
pub(crate) fn decrypt_bytes(ciphertext: &Vec<u8>) -> (r: Option<Vec<u8>>)
    ensures
        forall|p: Seq<u8>| ciphertext@ == #[trigger] enc_of(p) ==> r is Some && r->Some_0@ == p,
        ciphertext@.len() % 16 != 0 ==> r is None,
        ciphertext@.len() == 0 ==> r is None,
{
    let key: [u8; 16] = [
        0x00, 0x01, 0x02, 0x03, 0x04, 0x05, 0x06, 0x07, 0x08, 0x09, 0x0a, 0x0b, 0x0c, 0x0d, 0x0e,
        0x0f,
    ];
    let iv: [u8; 16] = [
        0xf0, 0xf1, 0xf2, 0xf3, 0xf4, 0xf5, 0xf6, 0xf7, 0xf8, 0xf9, 0xfa, 0xfb, 0xfc, 0xfd, 0xfe,
        0xff,
    ];
    let cipher = Cbc::<Aes128, Pkcs7>::new_var(&key, &iv).unwrap();
    match cipher.decrypt_vec(ciphertext.as_slice()) {
        Ok(v) => Some(v),
        Err(_) => None,
    }
}

} // verus!
