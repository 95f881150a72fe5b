//! One-shot creation of a new agent keystore: a fresh random root seed, the
//! agent's primary identity keybundle derived from it, and the encrypted
//! payload to persist.

use vstd::prelude::*;
use vstd::utf8::encode_utf8;
use crate::KeystoreError;
use crate::codec::{SeedModel, BundleModel, KsModel};
use crate::keystore::{
    Keystore, SeedContext, mock_passphrase_manager, derived_secret, derived_pid, payload_wf,
    wf_model, AGENT_ID_CTX, has_seed, has_bundle, seed_data,
};
use crate::crypto::pubkey_of;

verus! {

/// Every seed a keystore generates has this many bytes.
pub const SEED_SIZE: usize = 32;

/// The id under which `keygen` stores the agent's primary keybundle.
pub const PRIMARY_KEYBUNDLE_ID: &'static str = "primary_keybundle";

/// The contents of a keystore as `keygen` builds it from root seed bytes `d`:
/// one seed named `root_seed` and the primary keybundle derived from it under
/// the agent-id context at index 1.
pub open spec fn keygen_model(d: Seq<u8>) -> KsModel {
    KsModel {
        seeds: seq![SeedModel { name: encode_utf8("root_seed"@), data: d }],
        bundles: seq![
            BundleModel {
                id: encode_utf8(PRIMARY_KEYBUNDLE_ID@),
                secret: derived_secret(d, encode_utf8(AGENT_ID_CTX@), 1),
                pubkey: pubkey_of(derived_secret(d, encode_utf8(AGENT_ID_CTX@), 1)),
                pid: derived_pid(d, encode_utf8(AGENT_ID_CTX@), 1),
            },
        ],
    }
}

/// Create a new agent keystore protected by `passphrase`: generate a random
/// root seed, derive the primary keybundle, and return the agent's public
/// identifier together with the encrypted payload to write to disk.
pub fn keygen(passphrase: String) -> (r: Result<(String, Vec<u8>), KeystoreError>)
    ensures
        r is Ok ==> (exists|d: Seq<u8>|
            #![auto]
            {
                &&& d.len() == 32
                &&& (r->Ok_0).0@ == derived_pid(d, encode_utf8(AGENT_ID_CTX@), 1)
                &&& wf_model(keygen_model(d))
                &&& payload_wf((r->Ok_0).1@, passphrase@, keygen_model(d))
            }),
        r is Ok ==> (r->Ok_0).0@.len() > 0,
        r is Err ==> r->Err_0 == KeystoreError::EntropyFailure || r->Err_0
            == KeystoreError::EncryptionFailure,
{
    let ghost passv = passphrase@;
    let mut keystore = Keystore::new(mock_passphrase_manager(passphrase));
    match keystore.add_random_seed("root_seed", SEED_SIZE) {
        Ok(()) => (),
        Err(e) => {
            return Err(e);
        },
    }
    let ghost d = keystore@.seeds.last().data;
    proof {
        assert(keystore@.seeds =~= seq![SeedModel { name: encode_utf8("root_seed"@), data: d }]);
        assert(keystore@.seeds[0].name == encode_utf8("root_seed"@));
        assert(has_seed(keystore@, encode_utf8("root_seed"@)));
        assert(!has_bundle(keystore@, encode_utf8(PRIMARY_KEYBUNDLE_ID@)));
    }
    let ghost m1 = keystore@;
    let context = SeedContext::new(AGENT_ID_CTX);
    let pub_key = match keystore.add_keybundle_from_seed(
        "root_seed",
        PRIMARY_KEYBUNDLE_ID,
        &context,
        1,
    ) {
        Ok((p, _)) => p,
        Err(e) => {
            return Err(e);
        },
    };
    proof {
        assert(seed_data(m1, encode_utf8("root_seed"@)) == d) by {
            let k = choose|i: int|
                0 <= i < m1.seeds.len() && (#[trigger] m1.seeds[i]).name == encode_utf8(
                    "root_seed"@,
                );
            assert(m1.seeds[k].data == d);
        };
        assert(keystore@.bundles =~= seq![keystore@.bundles.last()]);
        assert(keystore@ =~~= keygen_model(d));
    }
    match keystore.save() {
        Ok(bytes) => {
            proof {
                assert(d.len() == 32 && pub_key@ == derived_pid(d, encode_utf8(AGENT_ID_CTX@), 1)
                    && wf_model(keygen_model(d)) && payload_wf(bytes@, passv, keygen_model(d)));
            }
            Ok((pub_key, bytes))
        },
        Err(e) => Err(e),
    }
}

} // verus!
