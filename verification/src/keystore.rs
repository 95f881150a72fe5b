//! The keystore: named secret seeds, keybundles derived from them, and
//! passphrase-protected persistence.

use vstd::prelude::*;
use vstd::string::StrSliceExecFns;
use vstd::slice::{slice_subrange, slice_to_vec};
use vstd::utf8::encode_utf8;
use crate::KeystoreError;
use crate::codec::{
    SeedModel, BundleModel, KsModel, enc_ks, enc_blob, enc_u64, ks_lens_ok, lemma_codec_roundtrip,
    fits_u64, encode_payload, decode_payload, append_bytes,
};
use crate::crypto;
use crate::crypto::{kdf_of, aead_enc, expand_of, pubkey_of, b58_of};

verus! {

/// A named secret seed: the root entropy that keybundles are derived from.
pub struct Seed {
    pub(crate) name: Vec<u8>,
    pub(crate) data: Vec<u8>,
}

impl View for Seed {
    type V = SeedModel;

    closed spec fn view(&self) -> SeedModel {
        SeedModel { name: self.name@, data: self.data@ }
    }
}

/// A derived key pair. Only the public identifier is exposed; the secret
/// material stays inside the keystore boundary.
pub struct Keybundle {
    pub(crate) id: Vec<u8>,
    pub(crate) secret: Vec<u8>,
    pub(crate) pubkey: Vec<u8>,
    pub(crate) pid: String,
}

impl View for Keybundle {
    type V = BundleModel;

    closed spec fn view(&self) -> BundleModel {
        BundleModel { id: self.id@, secret: self.secret@, pubkey: self.pubkey@, pid: self.pid@ }
    }
}

impl Keybundle {
    /// The stable, shareable identifier of this keybundle's public key.
    pub fn public_identifier(&self) -> (r: String)
        ensures
            r@ == self@.pid,
    {
        self.pid.clone()
    }
}

pub(crate) proof fn lemma_seed_view(s: &Seed)
    ensures
        s@.name == s.name@,
        s@.data == s.data@,
{
}

pub(crate) proof fn lemma_bundle_view(kb: &Keybundle)
    ensures
        kb@.id == kb.id@,
        kb@.secret == kb.secret@,
        kb@.pubkey == kb.pubkey@,
        kb@.pid == kb.pid@,
{
}

pub open spec fn seed_views(s: Seq<Seed>) -> Seq<SeedModel> {
    s.map_values(|x: Seed| x@)
}

pub open spec fn bundle_views(s: Seq<Keybundle>) -> Seq<BundleModel> {
    s.map_values(|x: Keybundle| x@)
}

/// A seed with this name exists.
pub open spec fn has_seed(m: KsModel, name: Seq<u8>) -> bool {
    exists|i: int| 0 <= i < m.seeds.len() && (#[trigger] m.seeds[i]).name == name
}

/// The bytes of the seed with this name.
pub open spec fn seed_data(m: KsModel, name: Seq<u8>) -> Seq<u8> {
    m.seeds[choose|i: int| 0 <= i < m.seeds.len() && (#[trigger] m.seeds[i]).name == name].data
}

/// A keybundle with this id exists.
pub open spec fn has_bundle(m: KsModel, id: Seq<u8>) -> bool {
    exists|i: int| 0 <= i < m.bundles.len() && (#[trigger] m.bundles[i]).id == id
}

/// The keybundle with this id.
pub open spec fn bundle_of(m: KsModel, id: Seq<u8>) -> BundleModel {
    m.bundles[choose|i: int| 0 <= i < m.bundles.len() && (#[trigger] m.bundles[i]).id == id]
}

/// The keystore's invariant: seed names and keybundle ids are unique, and
/// every stored byte string is short enough for the canonical encoding.
pub open spec fn wf_model(m: KsModel) -> bool {
    &&& forall|i: int, j: int|
        #![trigger m.seeds[i], m.seeds[j]]
        0 <= i < j < m.seeds.len() ==> m.seeds[i].name != m.seeds[j].name
    &&& forall|i: int, j: int|
        #![trigger m.bundles[i], m.bundles[j]]
        0 <= i < j < m.bundles.len() ==> m.bundles[i].id != m.bundles[j].id
    &&& ks_lens_ok(m)
}

proof fn lemma_seed_lookup(m: KsModel, i: int)
    requires
        wf_model(m),
        0 <= i < m.seeds.len(),
    ensures
        has_seed(m, m.seeds[i].name),
        seed_data(m, m.seeds[i].name) == m.seeds[i].data,
{
    let name = m.seeds[i].name;
    assert(has_seed(m, name));
    let k = choose|k: int| 0 <= k < m.seeds.len() && (#[trigger] m.seeds[k]).name == name;
    if k < i {
        assert(m.seeds[k].name != m.seeds[i].name);
    } else if i < k {
        assert(m.seeds[i].name != m.seeds[k].name);
    }
}

proof fn lemma_bundle_lookup(m: KsModel, i: int)
    requires
        wf_model(m),
        0 <= i < m.bundles.len(),
    ensures
        has_bundle(m, m.bundles[i].id),
        bundle_of(m, m.bundles[i].id) == m.bundles[i],
{
    let id = m.bundles[i].id;
    assert(has_bundle(m, id));
    let k = choose|k: int| 0 <= k < m.bundles.len() && (#[trigger] m.bundles[k]).id == id;
    if k < i {
        assert(m.bundles[k].id != m.bundles[i].id);
    } else if i < k {
        assert(m.bundles[i].id != m.bundles[k].id);
    }
}

/// The info label that domain-separates a derivation: the context label,
/// length-prefixed, followed by the derivation index.
pub open spec fn kd_info(label: Seq<u8>, index: u64) -> Seq<u8> {
    enc_blob(label) + enc_u64(index)
}

/// The secret material a derivation yields.
pub open spec fn derived_secret(seed: Seq<u8>, label: Seq<u8>, index: u64) -> Seq<u8> {
    expand_of(seed, kd_info(label, index))
}

/// The public identifier a derivation yields.
pub open spec fn derived_pid(seed: Seq<u8>, label: Seq<u8>, index: u64) -> Seq<char> {
    b58_of(pubkey_of(derived_secret(seed, label, index)))
}

/// An encrypted keystore payload: a 16-byte salt, a 12-byte nonce, and the
/// canonical encoding of contents `m`, encrypted under the key the KDF
/// derives from the passphrase and the salt.
pub open spec fn payload_wf(file: Seq<u8>, pass: Seq<char>, m: KsModel) -> bool {
    &&& file.len() >= 28
    &&& encode_utf8(pass).len() <= 0xFFFFFFFE
    &&& file == file.subrange(0, 16) + file.subrange(16, 28) + aead_enc(
        kdf_of(encode_utf8(pass), file.subrange(0, 16)),
        file.subrange(16, 28),
        enc_ks(m),
    )
}

proof fn lemma_payload_ct(file: Seq<u8>, pass: Seq<char>, m: KsModel)
    requires
        payload_wf(file, pass, m),
    ensures
        file.subrange(28, file.len() as int) == aead_enc(
            kdf_of(encode_utf8(pass), file.subrange(0, 16)),
            file.subrange(16, 28),
            enc_ks(m),
        ),
{
    assert(file.subrange(28, file.len() as int) =~= aead_enc(
        kdf_of(encode_utf8(pass), file.subrange(0, 16)),
        file.subrange(16, 28),
        enc_ks(m),
    ));
}

/// The source of the passphrase that protects a keystore at rest. The
/// keystore only ever asks it for a confirmed passphrase; interactive
/// acquisition (prompting and confirming at a terminal) lives with the
/// caller, which hands the confirmed result in as a fixed value.
pub enum PassphraseManager {
    Fixed(String),
}

impl PassphraseManager {
    pub closed spec fn passphrase(&self) -> Seq<char> {
        match self {
            PassphraseManager::Fixed(s) => s@,
        }
    }

    pub fn get_passphrase(&self) -> (r: String)
        ensures
            r@ == self.passphrase(),
    {
        match self {
            PassphraseManager::Fixed(s) => s.clone(),
        }
    }
}

/// A passphrase manager that returns a pre-supplied passphrase.
pub fn mock_passphrase_manager(passphrase: String) -> (r: PassphraseManager)
    ensures
        r.passphrase() == passphrase@,
{
    PassphraseManager::Fixed(passphrase)
}

/// A domain-separation tag distinguishing derivation purposes.
pub struct SeedContext {
    label: Vec<u8>,
}

impl View for SeedContext {
    type V = Seq<u8>;

    closed spec fn view(&self) -> Seq<u8> {
        self.label@
    }
}

impl SeedContext {
    pub fn new(label: &str) -> (r: SeedContext)
        ensures
            r@ == encode_utf8(label@),
    {
        SeedContext { label: label.as_bytes_vec() }
    }
}

/// The context label for an agent's identity keybundle.
pub const AGENT_ID_CTX: &'static str = "agent-id";

pub(crate) fn copy_bytes(v: &Vec<u8>) -> (r: Vec<u8>)
    ensures
        r@ == v@,
{
    slice_to_vec(v.as_slice())
}

/// Overwrite a secret buffer with zeros: best-effort erasure before the
/// buffer is dropped.
pub(crate) fn wipe_bytes(v: &mut Vec<u8>)
    ensures
        final(v)@.len() == old(v)@.len(),
        forall|i: int| 0 <= i < final(v)@.len() ==> final(v)@[i] == 0u8,
{
    let mut i: usize = 0;
    while i < v.len()
        invariant
            i <= v@.len(),
            v@.len() == old(v)@.len(),
            forall|j: int| 0 <= j < i ==> v@[j] == 0u8,
        decreases v@.len() - i,
    {
        v[i] = 0;
        i = i + 1;
    }
}

fn bytes_eq(a: &Vec<u8>, b: &Vec<u8>) -> (r: bool)
    ensures
        r <==> a@ == b@,
{
    if a.len() != b.len() {
        return false;
    }
    let mut i: usize = 0;
    while i < a.len()
        invariant
            i <= a@.len(),
            a@.len() == b@.len(),
            forall|j: int| 0 <= j < i ==> a@[j] == b@[j],
        decreases a@.len() - i,
    {
        if a[i] != b[i] {
            return false;
        }
        i = i + 1;
    }
    proof {
        assert(a@ =~= b@);
    }
    true
}

impl Keybundle {
    pub(crate) fn duplicate(&self) -> (r: Keybundle)
        ensures
            r@ == self@,
    {
        Keybundle {
            id: copy_bytes(&self.id),
            secret: copy_bytes(&self.secret),
            pubkey: copy_bytes(&self.pubkey),
            pid: self.pid.clone(),
        }
    }
}

/// The keystore: owns named seeds and the keybundles derived from them, and
/// can be serialized to and from an encrypted payload.
pub struct Keystore {
    seeds: Vec<Seed>,
    bundles: Vec<Keybundle>,
    passphrase_manager: PassphraseManager,
}

impl View for Keystore {
    type V = KsModel;

    closed spec fn view(&self) -> KsModel {
        KsModel { seeds: seed_views(self.seeds@), bundles: bundle_views(self.bundles@) }
    }
}

impl Keystore {
    /// The passphrase this keystore encrypts itself with.
    pub closed spec fn passphrase(&self) -> Seq<char> {
        self.passphrase_manager.passphrase()
    }

    pub open spec fn wf(&self) -> bool {
        wf_model(self@)
    }

    /// A fresh, empty keystore protected by the given passphrase source.
    pub fn new(passphrase_manager: PassphraseManager) -> (r: Keystore)
        ensures
            r@.seeds.len() == 0,
            r@.bundles.len() == 0,
            r.passphrase() == passphrase_manager.passphrase(),
            r.wf(),
    {
        let r = Keystore { seeds: Vec::new(), bundles: Vec::new(), passphrase_manager };
        proof {
            assert(seed_views(r.seeds@) =~= Seq::<SeedModel>::empty());
            assert(bundle_views(r.bundles@) =~= Seq::<BundleModel>::empty());
        }
        r
    }

    fn find_seed(&self, name: &Vec<u8>) -> (r: Option<usize>)
        ensures
            r is Some <==> has_seed(self@, name@),
            r is Some ==> r->0 < self@.seeds.len() && self@.seeds[r->0 as int].name == name@,
    {
        let mut i: usize = 0;
        while i < self.seeds.len()
            invariant
                i <= self.seeds@.len(),
                forall|j: int| 0 <= j < i ==> (#[trigger] seed_views(self.seeds@)[j]).name != name@,
            decreases self.seeds@.len() - i,
        {
            if bytes_eq(&self.seeds[i].name, name) {
                proof {
                    assert(seed_views(self.seeds@)[i as int] == self.seeds@[i as int]@);
                    assert(self@.seeds[i as int].name == name@);
                }
                return Some(i);
            }
            i = i + 1;
        }
        None
    }

    fn find_bundle(&self, id: &Vec<u8>) -> (r: Option<usize>)
        ensures
            r is Some <==> has_bundle(self@, id@),
            r is Some ==> r->0 < self@.bundles.len() && self@.bundles[r->0 as int].id == id@,
    {
        let mut i: usize = 0;
        while i < self.bundles.len()
            invariant
                i <= self.bundles@.len(),
                forall|j: int|
                    0 <= j < i ==> (#[trigger] bundle_views(self.bundles@)[j]).id != id@,
            decreases self.bundles@.len() - i,
        {
            if bytes_eq(&self.bundles[i].id, id) {
                proof {
                    assert(bundle_views(self.bundles@)[i as int] == self.bundles@[i as int]@);
                    assert(self@.bundles[i as int].id == id@);
                }
                return Some(i);
            }
            i = i + 1;
        }
        None
    }

    /// Generate `size` random bytes and store them as a seed named `name`.
    /// Fails with `DuplicateName` if a seed of that name already exists (the
    /// keystore is then unchanged) and with `EntropyFailure` if the entropy
    /// source does.
    pub fn add_random_seed(&mut self, name: &str, size: usize) -> (r: Result<
        (),
        KeystoreError,
    >)
        requires
            old(self).wf(),
        ensures
            final(self).wf(),
            final(self).passphrase() == old(self).passphrase(),
            r is Err ==> final(self)@ == old(self)@,
            has_seed(old(self)@, encode_utf8(name@)) <==> r == Err::<(), KeystoreError>(
                KeystoreError::DuplicateName,
            ),
            r is Err ==> r->Err_0 == KeystoreError::DuplicateName || r->Err_0
                == KeystoreError::EntropyFailure,
            r is Ok ==> ({
                let newm = final(self)@;
                let oldm = old(self)@;
                &&& newm.bundles == oldm.bundles
                &&& newm.seeds.len() == oldm.seeds.len() + 1
                &&& newm.seeds.subrange(0, oldm.seeds.len() as int) == oldm.seeds
                &&& newm.seeds.last().name == encode_utf8(name@)
                &&& newm.seeds.last().data.len() == size
            }),
    {
        let name_bytes = name.as_bytes_vec();
        if self.find_seed(&name_bytes).is_some() {
            return Err(KeystoreError::DuplicateName);
        }
        match crypto::random_bytes(size) {
            None => Err(KeystoreError::EntropyFailure),
            Some(data) => {
                // Taking the lengths in executable code witnesses that both
                // byte strings fit the encoding's 64-bit length prefix.
                let _nlen: usize = name_bytes.len();
                let _dlen: usize = data.len();
                let s = Seed { name: name_bytes, data };
                let ghost sm = s@;
                let ghost oldm = self@;
                self.seeds.push(s);
                let _count: usize = self.seeds.len();
                proof {
                    assert(fits_u64(sm.name.len()) && fits_u64(sm.data.len()));
                    assert(seed_views(self.seeds@) =~= oldm.seeds.push(sm));
                    assert(fits_u64(self@.seeds.len()));
                    assert(self@.seeds.subrange(0, oldm.seeds.len() as int) =~= oldm.seeds);
                    assert forall|i: int| 0 <= i < self@.seeds.len() implies crate::codec::seed_lens_ok(
                        #[trigger] self@.seeds[i],
                    ) by {
                        if i < oldm.seeds.len() {
                            assert(crate::codec::seed_lens_ok(oldm.seeds[i]));
                        }
                    }
                    assert forall|i: int, j: int|
                        #![trigger self@.seeds[i], self@.seeds[j]]
                        0 <= i < j < self@.seeds.len() implies self@.seeds[i].name
                        != self@.seeds[j].name by {
                        if j < oldm.seeds.len() {
                            assert(oldm.seeds[i].name != oldm.seeds[j].name);
                        } else {
                            assert(self@.seeds[j] == sm);
                            assert(!has_seed(oldm, sm.name));
                            assert(oldm.seeds[i].name != sm.name);
                        }
                    }
                }
                Ok(())
            },
        }
    }

    /// Derive a keybundle from the named seed under a context and index, store
    /// it under `keybundle_id`, and return its public identifier together
    /// with the keybundle. Fails with `SeedNotFound` if the seed is absent
    /// and `DuplicateName` if the id is taken; either failure leaves the
    /// keystore unchanged. Identical inputs always derive the identical
    /// keybundle.
    pub fn add_keybundle_from_seed(
        &mut self,
        seed_name: &str,
        keybundle_id: &str,
        context: &SeedContext,
        index: u64,
    ) -> (r: Result<(String, Keybundle), KeystoreError>)
        requires
            old(self).wf(),
            index >= 1,
        ensures
            final(self).wf(),
            final(self).passphrase() == old(self).passphrase(),
            r is Err ==> final(self)@ == old(self)@,
            r is Ok <==> has_seed(old(self)@, encode_utf8(seed_name@)) && !has_bundle(
                old(self)@,
                encode_utf8(keybundle_id@),
            ),
            !has_seed(old(self)@, encode_utf8(seed_name@)) ==> r == Err::<
                (String, Keybundle),
                KeystoreError,
            >(KeystoreError::SeedNotFound),
            has_seed(old(self)@, encode_utf8(seed_name@)) && has_bundle(
                old(self)@,
                encode_utf8(keybundle_id@),
            ) ==> r == Err::<(String, Keybundle), KeystoreError>(KeystoreError::DuplicateName),
            r is Ok ==> (r->Ok_0).0@.len() > 0,
            r is Ok ==> ({
                let sd = seed_data(old(self)@, encode_utf8(seed_name@));
                let kb = BundleModel {
                    id: encode_utf8(keybundle_id@),
                    secret: derived_secret(sd, context@, index),
                    pubkey: pubkey_of(derived_secret(sd, context@, index)),
                    pid: derived_pid(sd, context@, index),
                };
                &&& (r->Ok_0).0@ == derived_pid(sd, context@, index)
                &&& (r->Ok_0).1@ == kb
                &&& final(self)@.seeds == old(self)@.seeds
                &&& final(self)@.bundles.len() == old(self)@.bundles.len() + 1
                &&& final(self)@.bundles.subrange(0, old(self)@.bundles.len() as int) == old(
                    self,
                )@.bundles
                &&& final(self)@.bundles.last() == kb
            }),
    {
        let seed_name_bytes = seed_name.as_bytes_vec();
        let id_bytes = keybundle_id.as_bytes_vec();
        let seed_idx = match self.find_seed(&seed_name_bytes) {
            None => {
                return Err(KeystoreError::SeedNotFound);
            },
            Some(i) => i,
        };
        if self.find_bundle(&id_bytes).is_some() {
            return Err(KeystoreError::DuplicateName);
        }
        proof {
            lemma_seed_lookup(self@, seed_idx as int);
            assert(seed_views(self.seeds@)[seed_idx as int] == self.seeds@[seed_idx as int]@);
        }
        let mut info: Vec<u8> = Vec::new();
        crate::codec::append_blob(&mut info, &context.label);
        crate::codec::append_u64(&mut info, index);
        proof {
            assert(info@ =~= kd_info(context@, index));
        }
        let secret = crypto::hkdf_expand32(self.seeds[seed_idx].data.as_slice(), info.as_slice());
        let pubkey = crypto::signing_public_key(secret.as_slice());
        let pid = crypto::base58_encode(pubkey.as_slice());
        // Materializing the identifier's UTF-8 form witnesses that it, like
        // the other fields, fits the encoding's 64-bit length prefix.
        let pid_bytes_probe = pid.as_str().as_bytes_vec();
        let _plen: usize = pid_bytes_probe.len();
        let _ilen: usize = id_bytes.len();
        let kb = Keybundle { id: id_bytes, secret, pubkey, pid: pid.clone() };
        let out = kb.duplicate();
        let ghost kbm = kb@;
        let ghost oldm = self@;
        self.bundles.push(kb);
        let _count: usize = self.bundles.len();
        proof {
            assert(pid_bytes_probe@ == encode_utf8(kbm.pid));
            assert(crate::codec::bundle_lens_ok(kbm));
            assert(bundle_views(self.bundles@) =~= oldm.bundles.push(kbm));
            assert(fits_u64(self@.bundles.len()));
            assert(self@.bundles.subrange(0, oldm.bundles.len() as int) =~= oldm.bundles);
            assert forall|i: int| 0 <= i < self@.bundles.len() implies crate::codec::bundle_lens_ok(
                #[trigger] self@.bundles[i],
            ) by {
                if i < oldm.bundles.len() {
                    assert(crate::codec::bundle_lens_ok(oldm.bundles[i]));
                }
            }
            assert forall|i: int, j: int|
                #![trigger self@.bundles[i], self@.bundles[j]]
                0 <= i < j < self@.bundles.len() implies self@.bundles[i].id
                != self@.bundles[j].id by {
                if j < oldm.bundles.len() {
                    assert(oldm.bundles[i].id != oldm.bundles[j].id);
                } else {
                    assert(self@.bundles[j] == kbm);
                    assert(!has_bundle(oldm, kbm.id));
                    assert(oldm.bundles[i].id != kbm.id);
                }
            }
        }
        Ok((pid, out))
    }

    /// Look up a keybundle by id; `NotFound` if it is absent.
    pub fn get_keybundle(&self, keybundle_id: &str) -> (r: Result<Keybundle, KeystoreError>)
        requires
            self.wf(),
        ensures
            r is Ok <==> has_bundle(self@, encode_utf8(keybundle_id@)),
            r is Ok ==> r->Ok_0@ == bundle_of(self@, encode_utf8(keybundle_id@)),
            r is Err ==> r->Err_0 == KeystoreError::NotFound,
    {
        let id_bytes = keybundle_id.as_bytes_vec();
        match self.find_bundle(&id_bytes) {
            None => Err(KeystoreError::NotFound),
            Some(i) => {
                proof {
                    lemma_bundle_lookup(self@, i as int);
                    assert(bundle_views(self.bundles@)[i as int] == self.bundles@[i as int]@);
                }
                Ok(self.bundles[i].duplicate())
            },
        }
    }

    /// Serialize the keystore's contents and encrypt them under a fresh salt
    /// and nonce with a key derived from the passphrase. The result is the
    /// complete encrypted payload to be persisted. A passphrase whose UTF-8
    /// form exceeds the key derivation's input limit is refused as
    /// `EncryptionFailure`, and that and an over-long encoding are the only
    /// ways encryption itself fails. The passphrase bytes, the derived key
    /// and the serialized plaintext are overwritten before they are dropped,
    /// on every path.
    pub fn save(&self) -> (r: Result<Vec<u8>, KeystoreError>)
        requires
            self.wf(),
        ensures
            r is Ok ==> payload_wf(r->Ok_0@, self.passphrase(), self@),
            r is Err ==> r->Err_0 == KeystoreError::EntropyFailure || r->Err_0
                == KeystoreError::EncryptionFailure,
            encode_utf8(self.passphrase()).len() > 0xFFFFFFFE ==> r == Err::<
                Vec<u8>,
                KeystoreError,
            >(KeystoreError::EncryptionFailure),
            r == Err::<Vec<u8>, KeystoreError>(KeystoreError::EncryptionFailure) ==> encode_utf8(
                self.passphrase(),
            ).len() > 0xFFFFFFFE || enc_ks(self@).len() >= 0x100000000,
    {
        let pass = self.passphrase_manager.get_passphrase();
        let mut pass_bytes = pass.as_str().as_bytes_vec();
        if pass_bytes.len() > 0xFFFFFFFE {
            wipe_bytes(&mut pass_bytes);
            return Err(KeystoreError::EncryptionFailure);
        }
        let salt = match crypto::random_bytes(16) {
            None => {
                wipe_bytes(&mut pass_bytes);
                return Err(KeystoreError::EntropyFailure);
            },
            Some(v) => v,
        };
        let nonce = match crypto::random_bytes(12) {
            None => {
                wipe_bytes(&mut pass_bytes);
                return Err(KeystoreError::EntropyFailure);
            },
            Some(v) => v,
        };
        let mut key = crypto::kdf_derive_key(pass_bytes.as_slice(), salt.as_slice());
        let mut pt = encode_payload(&self.seeds, &self.bundles);
        proof {
            assert(pt@ == enc_ks(self@));
        }
        let ghost ptv = pt@;
        let enc = crypto::aead_encrypt(key.as_slice(), nonce.as_slice(), pt.as_slice());
        wipe_bytes(&mut pass_bytes);
        wipe_bytes(&mut key);
        wipe_bytes(&mut pt);
        match enc {
            None => {
                proof {
                    assert(ptv.len() >= 0x100000000);
                }
                Err(KeystoreError::EncryptionFailure)
            },
            Some(ct) => {
                let ghost saltv = salt@;
                let ghost noncev = nonce@;
                let mut out = salt;
                append_bytes(&mut out, &nonce);
                append_bytes(&mut out, &ct);
                proof {
                    assert(out@.subrange(0, 16) =~= saltv);
                    assert(out@.subrange(16, 28) =~= noncev);
                    assert(out@ =~= out@.subrange(0, 16) + out@.subrange(16, 28) + aead_enc(
                        kdf_of(encode_utf8(self.passphrase()), saltv),
                        noncev,
                        enc_ks(self@),
                    ));
                }
                Ok(out)
            },
        }
    }

    /// Decrypt an encrypted keystore payload with the manager's passphrase
    /// and rebuild the keystore. Any payload that `save` produced for
    /// contents `m` under the same passphrase is accepted and yields exactly
    /// `m`; a too-short or unauthentic payload fails with `DecryptionError`,
    /// and one whose decrypted bytes are malformed with `CorruptFileError`.
    #[verifier::rlimit(100)]
    pub fn new_from_file(file: &Vec<u8>, passphrase_manager: PassphraseManager) -> (r: Result<
        Keystore,
        KeystoreError,
    >)
        ensures
            r is Ok ==> r->Ok_0.wf() && r->Ok_0.passphrase() == passphrase_manager.passphrase(),
            forall|m: KsModel|
                wf_model(m) && #[trigger] payload_wf(file@, passphrase_manager.passphrase(), m)
                    ==> r is Ok && r->Ok_0@ == m,
            r is Err ==> r->Err_0 == KeystoreError::DecryptionError || r->Err_0
                == KeystoreError::CorruptFileError,
            file@.len() < 28 ==> r == Err::<Keystore, KeystoreError>(
                KeystoreError::DecryptionError,
            ),
    {
        let ghost pass = passphrase_manager.passphrase();
        if file.len() < 28 {
            return Err(KeystoreError::DecryptionError);
        }
        let pass_str = passphrase_manager.get_passphrase();
        let mut pass_bytes = pass_str.as_str().as_bytes_vec();
        if pass_bytes.len() > 0xFFFFFFFE {
            wipe_bytes(&mut pass_bytes);
            return Err(KeystoreError::DecryptionError);
        }
        let salt = slice_to_vec(slice_subrange(file.as_slice(), 0, 16));
        let nonce = slice_to_vec(slice_subrange(file.as_slice(), 16, 28));
        let ct = slice_to_vec(slice_subrange(file.as_slice(), 28, file.len()));
        let mut key = crypto::kdf_derive_key(pass_bytes.as_slice(), salt.as_slice());
        proof {
            assert forall|m: KsModel| wf_model(m) && #[trigger] payload_wf(file@, pass, m)
                implies ct@ == aead_enc(key@, nonce@, enc_ks(m)) by {
                lemma_payload_ct(file@, pass, m);
            }
        }
        let dec = crypto::aead_decrypt(key.as_slice(), nonce.as_slice(), ct.as_slice());
        wipe_bytes(&mut pass_bytes);
        wipe_bytes(&mut key);
        let mut pt = match dec {
            None => {
                return Err(KeystoreError::DecryptionError);
            },
            Some(v) => v,
        };
        let decoded = decode_payload(&pt);
        wipe_bytes(&mut pt);
        let parsed = match decoded {
            None => {
                proof {
                    assert forall|m: KsModel| wf_model(m) && #[trigger] payload_wf(
                        file@,
                        pass,
                        m,
                    ) implies false by {
                        lemma_codec_roundtrip(m);
                    }
                }
                return Err(KeystoreError::CorruptFileError);
            },
            Some(v) => v,
        };
        let (seeds, bundles) = parsed;
        if !seeds_distinct(&seeds) || !bundles_distinct(&bundles) {
            proof {
                assert forall|m: KsModel| wf_model(m) && #[trigger] payload_wf(file@, pass, m)
                    implies false by {
                    lemma_codec_roundtrip(m);
                }
            }
            return Err(KeystoreError::CorruptFileError);
        }
        let r = Keystore { seeds, bundles, passphrase_manager };
        proof {
            assert forall|m: KsModel| wf_model(m) && #[trigger] payload_wf(file@, pass, m)
                implies r@ == m by {
                lemma_codec_roundtrip(m);
            }
        }
        Ok(r)
    }
}

fn seeds_distinct(seeds: &Vec<Seed>) -> (r: bool)
    ensures
        r <==> (forall|i: int, j: int|
            #![trigger seed_views(seeds@)[i], seed_views(seeds@)[j]]
            0 <= i < j < seeds@.len() ==> seed_views(seeds@)[i].name != seed_views(
                seeds@,
            )[j].name),
{
    let ghost views = seed_views(seeds@);
    let mut i: usize = 0;
    while i < seeds.len()
        invariant
            i <= seeds@.len(),
            views == seed_views(seeds@),
            forall|a: int, b: int|
                #![trigger views[a], views[b]]
                0 <= a < b < seeds@.len() && a < i ==> views[a].name != views[b].name,
        decreases seeds@.len() - i,
    {
        let mut j: usize = i + 1;
        while j < seeds.len()
            invariant
                i < j <= seeds@.len() || (i + 1 == j && j > seeds@.len()),
                i < seeds@.len(),
                views == seed_views(seeds@),
                forall|b: int| i < b < j ==> views[i as int].name != (#[trigger] views[b]).name,
            decreases seeds@.len() - j,
        {
            if bytes_eq(&seeds[i].name, &seeds[j].name) {
                proof {
                    assert(views[i as int].name == seeds@[i as int].name@);
                    assert(views[j as int].name == seeds@[j as int].name@);
                }
                return false;
            }
            j = j + 1;
        }
        i = i + 1;
    }
    true
}

fn bundles_distinct(bundles: &Vec<Keybundle>) -> (r: bool)
    ensures
        r <==> (forall|i: int, j: int|
            #![trigger bundle_views(bundles@)[i], bundle_views(bundles@)[j]]
            0 <= i < j < bundles@.len() ==> bundle_views(bundles@)[i].id != bundle_views(
                bundles@,
            )[j].id),
{
    let ghost views = bundle_views(bundles@);
    let mut i: usize = 0;
    while i < bundles.len()
        invariant
            i <= bundles@.len(),
            views == bundle_views(bundles@),
            forall|a: int, b: int|
                #![trigger views[a], views[b]]
                0 <= a < b < bundles@.len() && a < i ==> views[a].id != views[b].id,
        decreases bundles@.len() - i,
    {
        let mut j: usize = i + 1;
        while j < bundles.len()
            invariant
                i < j <= bundles@.len() || (i + 1 == j && j > bundles@.len()),
                i < bundles@.len(),
                views == bundle_views(bundles@),
                forall|b: int| i < b < j ==> views[i as int].id != (#[trigger] views[b]).id,
            decreases bundles@.len() - j,
        {
            if bytes_eq(&bundles[i].id, &bundles[j].id) {
                proof {
                    assert(views[i as int].id == bundles@[i as int].id@);
                    assert(views[j as int].id == bundles@[j as int].id@);
                }
                return false;
            }
            j = j + 1;
        }
        i = i + 1;
    }
    true
}

} // verus!
