//! Laws the keystore obeys, stated and proved once for all inputs.

use vstd::prelude::*;
use vstd::utf8::encode_utf8;
use crate::codec::{KsModel, enc_ks, dec_ks, lemma_codec_roundtrip};
use crate::keystore::{derived_secret, derived_pid, payload_wf, wf_model};
use crate::crypto::{kdf_of, aead_enc};

verus! {

/// Determinism: deriving from identical seed bytes, context label and
/// derivation index yields the identical secret material and the identical
/// public identifier. With `add_keybundle_from_seed`'s contract, which pins
/// its results to these functions of its inputs, deriving a keybundle twice
/// from the same seed, context and index gives identical key material.
pub proof fn lemma_derivation_deterministic(
    s1: Seq<u8>,
    c1: Seq<u8>,
    i1: u64,
    s2: Seq<u8>,
    c2: Seq<u8>,
    i2: u64,
)
    requires
        s1 == s2,
        c1 == c2,
        i1 == i2,
    ensures
        derived_secret(s1, c1, i1) == derived_secret(s2, c2, i2),
        derived_pid(s1, c1, i1) == derived_pid(s2, c2, i2),
{
}

/// Round trip: an encrypted payload holding keystore contents `m` under
/// passphrase `p` carries exactly the encryption of the canonical encoding
/// of `m`, and that encoding parses back to exactly `m`. Together with
/// `save`'s and `new_from_file`'s contracts this says that loading a saved
/// keystore with the same passphrase restores exactly its contents.
pub proof fn lemma_payload_roundtrip(file: Seq<u8>, pass: Seq<char>, m: KsModel)
    requires
        wf_model(m),
        payload_wf(file, pass, m),
    ensures
        file.subrange(28, file.len() as int) == aead_enc(
            kdf_of(encode_utf8(pass), file.subrange(0, 16)),
            file.subrange(16, 28),
            enc_ks(m),
        ),
        dec_ks(enc_ks(m)) == Some(m),
{
    assert(file.subrange(28, file.len() as int) =~= aead_enc(
        kdf_of(encode_utf8(pass), file.subrange(0, 16)),
        file.subrange(16, 28),
        enc_ks(m),
    ));
    lemma_codec_roundtrip(m);
}

} // verus!
