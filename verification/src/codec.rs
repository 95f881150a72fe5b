//! Canonical byte representation of a keystore's contents.
//!
//! The format is a sequence of length-prefixed byte strings: every length is
//! an 8-byte big-endian integer. A seed is two such blobs (name, data); a
//! keybundle is four (id, secret, public key, public identifier as UTF-8);
//! the whole payload is a seed count, the seeds, a bundle count and the
//! bundles, with nothing following. Decoding is specified as a deterministic
//! spec-level parser, the executable encoder and decoder are proved to match
//! the spec, and decoding is proved to invert encoding.

use vstd::prelude::*;
use vstd::utf8::{valid_utf8, decode_utf8, encode_utf8};
use vstd::slice::{slice_subrange, slice_to_vec};
use crate::keystore::{
    Seed, Keybundle, seed_views, bundle_views, lemma_seed_view, lemma_bundle_view,
};
use vstd::string::StrSliceExecFns;

verus! {

/// Mathematical content of a stored seed: its name and its secret bytes.
pub struct SeedModel {
    pub name: Seq<u8>,
    pub data: Seq<u8>,
}

/// Mathematical content of a derived keybundle.
pub struct BundleModel {
    pub id: Seq<u8>,
    pub secret: Seq<u8>,
    pub pubkey: Seq<u8>,
    pub pid: Seq<char>,
}

/// Mathematical content of a keystore: its seeds and keybundles, in order.
pub struct KsModel {
    pub seeds: Seq<SeedModel>,
    pub bundles: Seq<BundleModel>,
}

pub open spec fn fits_u64(n: nat) -> bool {
    n < 0x1_0000_0000_0000_0000
}

pub open spec fn enc_u64(n: u64) -> Seq<u8> {
    seq![
        ((n >> 56) & 0xff) as u8,
        ((n >> 48) & 0xff) as u8,
        ((n >> 40) & 0xff) as u8,
        ((n >> 32) & 0xff) as u8,
        ((n >> 24) & 0xff) as u8,
        ((n >> 16) & 0xff) as u8,
        ((n >> 8) & 0xff) as u8,
        (n & 0xff) as u8,
    ]
}

pub open spec fn dec_u64(b: Seq<u8>) -> u64
    recommends
        b.len() == 8,
{
    ((b[0] as u64) << 56) | ((b[1] as u64) << 48) | ((b[2] as u64) << 40) | ((b[3] as u64) << 32)
        | ((b[4] as u64) << 24) | ((b[5] as u64) << 16) | ((b[6] as u64) << 8) | (b[7] as u64)
}

pub proof fn lemma_u64_roundtrip(n: u64)
    ensures
        enc_u64(n).len() == 8,
        dec_u64(enc_u64(n)) == n,
{
    assert((((((n >> 56) & 0xff) as u8) as u64) << 56) | (((((n >> 48) & 0xff) as u8) as u64)
        << 48) | (((((n >> 40) & 0xff) as u8) as u64) << 40) | (((((n >> 32) & 0xff) as u8) as u64)
        << 32) | (((((n >> 24) & 0xff) as u8) as u64) << 24) | (((((n >> 16) & 0xff) as u8) as u64)
        << 16) | (((((n >> 8) & 0xff) as u8) as u64) << 8) | (((n & 0xff) as u8) as u64) == n)
        by (bit_vector);
}

/// A length-prefixed byte string.
pub open spec fn enc_blob(b: Seq<u8>) -> Seq<u8> {
    enc_u64(b.len() as u64) + b
}

/// Parse one length-prefixed byte string; also return what follows it.
pub open spec fn dec_blob(b: Seq<u8>) -> Option<(Seq<u8>, Seq<u8>)> {
    if b.len() < 8 {
        None
    } else {
        let n = dec_u64(b.subrange(0, 8)) as int;
        if b.len() - 8 < n {
            None
        } else {
            Some((b.subrange(8, 8 + n), b.subrange(8 + n, b.len() as int)))
        }
    }
}

pub proof fn lemma_blob_roundtrip(b: Seq<u8>, rest: Seq<u8>)
    requires
        fits_u64(b.len()),
    ensures
        dec_blob(enc_blob(b) + rest) == Some((b, rest)),
{
    lemma_u64_roundtrip(b.len() as u64);
    let e = enc_blob(b) + rest;
    assert(e.subrange(0, 8) =~= enc_u64(b.len() as u64));
    assert(e.subrange(8, 8 + b.len() as int) =~= b);
    assert(e.subrange(8 + b.len() as int, e.len() as int) =~= rest);
}

pub open spec fn seed_lens_ok(s: SeedModel) -> bool {
    fits_u64(s.name.len()) && fits_u64(s.data.len())
}

pub open spec fn enc_seed(s: SeedModel) -> Seq<u8> {
    enc_blob(s.name) + enc_blob(s.data)
}

#[verifier::opaque]
pub open spec fn dec_seed(b: Seq<u8>) -> Option<(SeedModel, Seq<u8>)> {
    match dec_blob(b) {
        None => None,
        Some((name, r1)) => match dec_blob(r1) {
            None => None,
            Some((data, r2)) => Some((SeedModel { name, data }, r2)),
        },
    }
}

pub proof fn lemma_seed_roundtrip(s: SeedModel, rest: Seq<u8>)
    requires
        seed_lens_ok(s),
    ensures
        dec_seed(enc_seed(s) + rest) == Some((s, rest)),
{
    reveal(dec_seed);
    assert(enc_seed(s) + rest =~= enc_blob(s.name) + (enc_blob(s.data) + rest));
    lemma_blob_roundtrip(s.name, enc_blob(s.data) + rest);
    lemma_blob_roundtrip(s.data, rest);
}

pub open spec fn seeds_lens_ok(ss: Seq<SeedModel>) -> bool {
    forall|i: int| 0 <= i < ss.len() ==> seed_lens_ok(#[trigger] ss[i])
}

pub open spec fn enc_seeds(ss: Seq<SeedModel>) -> Seq<u8>
    decreases ss.len(),
{
    if ss.len() == 0 {
        Seq::empty()
    } else {
        enc_seed(ss[0]) + enc_seeds(ss.drop_first())
    }
}

pub open spec fn dec_seeds(b: Seq<u8>, count: nat) -> Option<(Seq<SeedModel>, Seq<u8>)>
    decreases count,
{
    if count == 0 {
        Some((Seq::empty(), b))
    } else {
        match dec_seed(b) {
            None => None,
            Some((s, r1)) => match dec_seeds(r1, (count - 1) as nat) {
                None => None,
                Some((ss, r2)) => Some((seq![s] + ss, r2)),
            },
        }
    }
}

#[verifier::rlimit(100)]
pub proof fn lemma_seeds_roundtrip(ss: Seq<SeedModel>, rest: Seq<u8>)
    requires
        seeds_lens_ok(ss),
    ensures
        dec_seeds(enc_seeds(ss) + rest, ss.len()) == Some((ss, rest)),
    decreases ss.len(),
{
    if ss.len() == 0 {
        assert(enc_seeds(ss) + rest =~= rest);
    } else {
        let tail = ss.drop_first();
        let erest = enc_seeds(tail) + rest;
        assert(enc_seeds(ss) + rest =~= enc_seed(ss[0]) + erest);
        lemma_seed_roundtrip(ss[0], erest);
        assert(dec_seed(enc_seeds(ss) + rest) == Some((ss[0], erest)));
        assert forall|i: int| 0 <= i < tail.len() implies seed_lens_ok(#[trigger] tail[i]) by {
            assert(tail[i] == ss[i + 1]);
        }
        lemma_seeds_roundtrip(tail, rest);
        assert(dec_seeds(erest, (ss.len() - 1) as nat) == Some((tail, rest)));
        assert(seq![ss[0]] + tail =~= ss);
        assert(dec_seeds(enc_seeds(ss) + rest, ss.len()) == Some((seq![ss[0]] + tail, rest)));
    }
}

pub open spec fn bundle_lens_ok(kb: BundleModel) -> bool {
    fits_u64(kb.id.len()) && fits_u64(kb.secret.len()) && fits_u64(kb.pubkey.len()) && fits_u64(
        encode_utf8(kb.pid).len(),
    )
}

pub open spec fn enc_bundle(kb: BundleModel) -> Seq<u8> {
    enc_blob(kb.id) + enc_blob(kb.secret) + enc_blob(kb.pubkey) + enc_blob(encode_utf8(kb.pid))
}

#[verifier::opaque]
pub open spec fn dec_bundle(b: Seq<u8>) -> Option<(BundleModel, Seq<u8>)> {
    match dec_blob(b) {
        None => None,
        Some((id, r1)) => match dec_blob(r1) {
            None => None,
            Some((secret, r2)) => match dec_blob(r2) {
                None => None,
                Some((pubkey, r3)) => match dec_blob(r3) {
                    None => None,
                    Some((pidb, r4)) => if valid_utf8(pidb) {
                        Some((BundleModel { id, secret, pubkey, pid: decode_utf8(pidb) }, r4))
                    } else {
                        None
                    },
                },
            },
        },
    }
}

pub proof fn lemma_bundle_roundtrip(kb: BundleModel, rest: Seq<u8>)
    requires
        bundle_lens_ok(kb),
    ensures
        dec_bundle(enc_bundle(kb) + rest) == Some((kb, rest)),
{
    reveal(dec_bundle);
    let pidb = encode_utf8(kb.pid);
    let t3 = enc_blob(pidb) + rest;
    let t2 = enc_blob(kb.pubkey) + t3;
    let t1 = enc_blob(kb.secret) + t2;
    assert(enc_bundle(kb) + rest =~= enc_blob(kb.id) + t1);
    assert(t1 =~= enc_blob(kb.secret) + t2);
    lemma_blob_roundtrip(kb.id, t1);
    lemma_blob_roundtrip(kb.secret, t2);
    lemma_blob_roundtrip(kb.pubkey, t3);
    lemma_blob_roundtrip(pidb, rest);
    vstd::utf8::encode_utf8_valid_utf8(kb.pid);
    vstd::utf8::encode_utf8_decode_utf8(kb.pid);
}

pub open spec fn bundles_lens_ok(bs: Seq<BundleModel>) -> bool {
    forall|i: int| 0 <= i < bs.len() ==> bundle_lens_ok(#[trigger] bs[i])
}

pub open spec fn enc_bundles(bs: Seq<BundleModel>) -> Seq<u8>
    decreases bs.len(),
{
    if bs.len() == 0 {
        Seq::empty()
    } else {
        enc_bundle(bs[0]) + enc_bundles(bs.drop_first())
    }
}

pub open spec fn dec_bundles(b: Seq<u8>, count: nat) -> Option<(Seq<BundleModel>, Seq<u8>)>
    decreases count,
{
    if count == 0 {
        Some((Seq::empty(), b))
    } else {
        match dec_bundle(b) {
            None => None,
            Some((kb, r1)) => match dec_bundles(r1, (count - 1) as nat) {
                None => None,
                Some((bs, r2)) => Some((seq![kb] + bs, r2)),
            },
        }
    }
}

#[verifier::rlimit(100)]
pub proof fn lemma_bundles_roundtrip(bs: Seq<BundleModel>, rest: Seq<u8>)
    requires
        bundles_lens_ok(bs),
    ensures
        dec_bundles(enc_bundles(bs) + rest, bs.len()) == Some((bs, rest)),
    decreases bs.len(),
{
    if bs.len() == 0 {
        assert(enc_bundles(bs) + rest =~= rest);
    } else {
        let tail = bs.drop_first();
        let erest = enc_bundles(tail) + rest;
        assert(enc_bundles(bs) + rest =~= enc_bundle(bs[0]) + erest);
        lemma_bundle_roundtrip(bs[0], erest);
        assert(dec_bundle(enc_bundles(bs) + rest) == Some((bs[0], erest)));
        assert forall|i: int| 0 <= i < tail.len() implies bundle_lens_ok(#[trigger] tail[i]) by {
            assert(tail[i] == bs[i + 1]);
        }
        lemma_bundles_roundtrip(tail, rest);
        assert(dec_bundles(erest, (bs.len() - 1) as nat) == Some((tail, rest)));
        assert(seq![bs[0]] + tail =~= bs);
        assert(dec_bundles(enc_bundles(bs) + rest, bs.len()) == Some((seq![bs[0]] + tail, rest)));
    }
}

/// The byte lengths a keystore's contents must keep below the length
/// prefix's range; every in-memory keystore satisfies this.
pub open spec fn ks_lens_ok(m: KsModel) -> bool {
    fits_u64(m.seeds.len()) && fits_u64(m.bundles.len()) && seeds_lens_ok(m.seeds)
        && bundles_lens_ok(m.bundles)
}

pub open spec fn enc_ks(m: KsModel) -> Seq<u8> {
    enc_u64(m.seeds.len() as u64) + enc_seeds(m.seeds) + enc_u64(m.bundles.len() as u64)
        + enc_bundles(m.bundles)
}

pub open spec fn dec_ks(b: Seq<u8>) -> Option<KsModel> {
    if b.len() < 8 {
        None
    } else {
        let ns = dec_u64(b.subrange(0, 8)) as nat;
        match dec_seeds(b.subrange(8, b.len() as int), ns) {
            None => None,
            Some((seeds, r1)) => if r1.len() < 8 {
                None
            } else {
                let nb = dec_u64(r1.subrange(0, 8)) as nat;
                match dec_bundles(r1.subrange(8, r1.len() as int), nb) {
                    None => None,
                    Some((bundles, r2)) => if r2.len() == 0 {
                        Some(KsModel { seeds, bundles })
                    } else {
                        None
                    },
                }
            },
        }
    }
}

/// Decoding inverts encoding: the canonical byte form of any keystore
/// contents with encodable lengths parses back to exactly those contents.
pub proof fn lemma_codec_roundtrip(m: KsModel)
    requires
        ks_lens_ok(m),
    ensures
        dec_ks(enc_ks(m)) == Some(m),
{
    let e = enc_ks(m);
    lemma_u64_roundtrip(m.seeds.len() as u64);
    lemma_u64_roundtrip(m.bundles.len() as u64);
    let r1 = enc_u64(m.bundles.len() as u64) + enc_bundles(m.bundles);
    assert(e.subrange(0, 8) =~= enc_u64(m.seeds.len() as u64));
    assert(e.subrange(8, e.len() as int) =~= enc_seeds(m.seeds) + r1);
    lemma_seeds_roundtrip(m.seeds, r1);
    assert(r1.subrange(0, 8) =~= enc_u64(m.bundles.len() as u64));
    assert(r1.subrange(8, r1.len() as int) =~= enc_bundles(m.bundles) + Seq::<u8>::empty());
    lemma_bundles_roundtrip(m.bundles, Seq::<u8>::empty());
}

pub(crate) fn append_u64(out: &mut Vec<u8>, n: u64)
    ensures
        final(out)@ == old(out)@ + enc_u64(n),
{
    out.push(((n >> 56) & 0xff) as u8);
    out.push(((n >> 48) & 0xff) as u8);
    out.push(((n >> 40) & 0xff) as u8);
    out.push(((n >> 32) & 0xff) as u8);
    out.push(((n >> 24) & 0xff) as u8);
    out.push(((n >> 16) & 0xff) as u8);
    out.push(((n >> 8) & 0xff) as u8);
    out.push((n & 0xff) as u8);
    assert(out@ =~= old(out)@ + enc_u64(n));
}

pub(crate) fn append_bytes(out: &mut Vec<u8>, b: &Vec<u8>)
    ensures
        final(out)@ == old(out)@ + b@,
{
    let mut i: usize = 0;
    while i < b.len()
        invariant
            i <= b@.len(),
            out@ == old(out)@ + b@.subrange(0, i as int),
        decreases b@.len() - i,
    {
        out.push(b[i]);
        assert(out@ =~= old(out)@ + b@.subrange(0, i + 1));
        i = i + 1;
    }
    assert(out@ =~= old(out)@ + b@);
}

pub(crate) fn append_blob(out: &mut Vec<u8>, b: &Vec<u8>)
    ensures
        final(out)@ == old(out)@ + enc_blob(b@),
{
    append_u64(out, b.len() as u64);
    append_bytes(out, b);
    assert(out@ =~= old(out)@ + enc_blob(b@));
}

fn append_seeds(out: &mut Vec<u8>, seeds: &Vec<Seed>, i: usize)
    requires
        i <= seeds@.len(),
    ensures
        final(out)@ == old(out)@ + enc_seeds(seed_views(seeds@).skip(i as int)),
    decreases seeds@.len() - i,
{
    let ghost views = seed_views(seeds@);
    if i == seeds.len() {
        assert(views.skip(i as int) =~= Seq::<SeedModel>::empty());
        assert(out@ =~= out@ + enc_seeds(views.skip(i as int)));
    } else {
        let s = &seeds[i];
        append_blob(out, &s.name);
        append_blob(out, &s.data);
        append_seeds(out, seeds, i + 1);
        proof {
            let rest = views.skip(i as int);
            crate::keystore::lemma_seed_view(s);
            assert(rest[0] == views[i as int]);
            assert(rest.drop_first() =~= views.skip(i + 1));
            assert(views[i as int] == seeds@[i as int]@);
            assert(out@ =~= old(out)@ + enc_seeds(rest));
        }
    }
}

fn append_bundles(out: &mut Vec<u8>, bundles: &Vec<Keybundle>, i: usize)
    requires
        i <= bundles@.len(),
    ensures
        final(out)@ == old(out)@ + enc_bundles(bundle_views(bundles@).skip(i as int)),
    decreases bundles@.len() - i,
{
    let ghost views = bundle_views(bundles@);
    if i == bundles.len() {
        assert(views.skip(i as int) =~= Seq::<BundleModel>::empty());
        assert(out@ =~= out@ + enc_bundles(views.skip(i as int)));
    } else {
        let kb = &bundles[i];
        append_blob(out, &kb.id);
        append_blob(out, &kb.secret);
        append_blob(out, &kb.pubkey);
        let pid_bytes = kb.pid.as_str().as_bytes_vec();
        append_blob(out, &pid_bytes);
        append_bundles(out, bundles, i + 1);
        proof {
            let rest = views.skip(i as int);
            crate::keystore::lemma_bundle_view(kb);
            assert(rest[0] == views[i as int]);
            assert(rest.drop_first() =~= views.skip(i + 1));
            assert(views[i as int] == bundles@[i as int]@);
            assert(out@ =~= old(out)@ + enc_bundles(rest));
        }
    }
}

/// Serialize seeds and keybundles into the canonical byte form.
pub(crate) fn encode_payload(seeds: &Vec<Seed>, bundles: &Vec<Keybundle>) -> (r: Vec<u8>)
    ensures
        r@ == enc_ks(KsModel { seeds: seed_views(seeds@), bundles: bundle_views(bundles@) }),
{
    let mut out: Vec<u8> = Vec::new();
    append_u64(&mut out, seeds.len() as u64);
    append_seeds(&mut out, seeds, 0);
    append_u64(&mut out, bundles.len() as u64);
    append_bundles(&mut out, bundles, 0);
    proof {
        let m = KsModel { seeds: seed_views(seeds@), bundles: bundle_views(bundles@) };
        assert(seed_views(seeds@).skip(0) =~= m.seeds);
        assert(bundle_views(bundles@).skip(0) =~= m.bundles);
        assert(out@ =~= enc_ks(m));
    }
    out
}

/// What remains of `b` from position `pos` on.
pub open spec fn tail_of(b: Seq<u8>, pos: int) -> Seq<u8>
    recommends
        0 <= pos <= b.len(),
{
    b.subrange(pos, b.len() as int)
}

fn read_u64(b: &Vec<u8>, pos: usize) -> (r: Option<(u64, usize)>)
    requires
        pos <= b@.len(),
    ensures
        r is Some <==> pos + 8 <= b@.len(),
        r is Some ==> ((r->0).0 == dec_u64(b@.subrange(pos as int, pos as int + 8)) && (r->0).1 == pos
            + 8),
{
    if b.len() - pos < 8 {
        return None;
    }
    let v: u64 = ((b[pos] as u64) << 56) | ((b[pos + 1] as u64) << 48) | ((b[pos + 2] as u64)
        << 40) | ((b[pos + 3] as u64) << 32) | ((b[pos + 4] as u64) << 24) | ((b[pos + 5] as u64)
        << 16) | ((b[pos + 6] as u64) << 8) | (b[pos + 7] as u64);
    proof {
        let sub = b@.subrange(pos as int, pos as int + 8);
        assert(sub[0] == b@[pos as int]);
        assert(sub[1] == b@[pos as int + 1]);
        assert(sub[2] == b@[pos as int + 2]);
        assert(sub[3] == b@[pos as int + 3]);
        assert(sub[4] == b@[pos as int + 4]);
        assert(sub[5] == b@[pos as int + 5]);
        assert(sub[6] == b@[pos as int + 6]);
        assert(sub[7] == b@[pos as int + 7]);
    }
    Some((v, pos + 8))
}

fn read_blob(b: &Vec<u8>, pos: usize) -> (r: Option<(Vec<u8>, usize)>)
    requires
        pos <= b@.len(),
    ensures
        r is Some <==> dec_blob(tail_of(b@, pos as int)) is Some,
        r is Some ==> ({
            let pr = dec_blob(tail_of(b@, pos as int))->0;
            &&& (r->0).0@ == pr.0
            &&& pos <= (r->0).1 <= b@.len()
            &&& tail_of(b@, (r->0).1 as int) == pr.1
        }),
{
    let ghost tail = tail_of(b@, pos as int);
    match read_u64(b, pos) {
        None => None,
        Some((n, p1)) => {
            proof {
                assert(tail.subrange(0, 8) =~= b@.subrange(pos as int, pos as int + 8));
            }
            if ((b.len() - p1) as u64) < n {
                None
            } else {
                let nn = n as usize;
                let payload = slice_to_vec(slice_subrange(b.as_slice(), p1, p1 + nn));
                proof {
                    assert(tail.subrange(8, 8 + n as int) =~= b@.subrange(
                        p1 as int,
                        p1 as int + n as int,
                    ));
                    assert(tail.subrange(8 + n as int, tail.len() as int) =~= tail_of(
                        b@,
                        p1 as int + n as int,
                    ));
                }
                Some((payload, p1 + nn))
            }
        },
    }
}

fn read_seed(b: &Vec<u8>, pos: usize) -> (r: Option<(Seed, usize)>)
    requires
        pos <= b@.len(),
    ensures
        r is Some <==> dec_seed(tail_of(b@, pos as int)) is Some,
        r is Some ==> ({
            let pr = dec_seed(tail_of(b@, pos as int))->0;
            &&& (r->0).0@ == pr.0
            &&& seed_lens_ok((r->0).0@)
            &&& pos <= (r->0).1 <= b@.len()
            &&& tail_of(b@, (r->0).1 as int) == pr.1
        }),
{
    proof {
        reveal(dec_seed);
    }
    match read_blob(b, pos) {
        None => None,
        Some((name, p1)) => match read_blob(b, p1) {
            None => None,
            Some((data, p2)) => {
                // The lengths, taken in executable code, witness that the
                // parsed fields fit the encoding's 64-bit length prefix.
                let _nlen: usize = name.len();
                let _dlen: usize = data.len();
                let s = Seed { name, data };
                proof {
                    lemma_seed_view(&s);
                    assert(fits_u64(s@.name.len()) && fits_u64(s@.data.len()));
                }
                Some((s, p2))
            },
        },
    }
}

fn read_seeds(b: &Vec<u8>, pos: usize, count: u64) -> (r: Option<(Vec<Seed>, usize)>)
    requires
        pos <= b@.len(),
    ensures
        r is Some <==> dec_seeds(tail_of(b@, pos as int), count as nat) is Some,
        r is Some ==> ({
            let pr = dec_seeds(tail_of(b@, pos as int), count as nat)->0;
            &&& seed_views((r->0).0@) == pr.0
            &&& seeds_lens_ok(pr.0)
            &&& pos <= (r->0).1 <= b@.len()
            &&& tail_of(b@, (r->0).1 as int) == pr.1
        }),
    decreases count,
{
    if count == 0 {
        let v: Vec<Seed> = Vec::new();
        proof {
            assert(seed_views(v@) =~= Seq::<SeedModel>::empty());
        }
        Some((v, pos))
    } else {
        match read_seed(b, pos) {
            None => None,
            Some((s, p1)) => match read_seeds(b, p1, count - 1) {
                None => None,
                Some((v, p2)) => {
                    let ghost vold = v@;
                    let mut v = v;
                    v.insert(0, s);
                    proof {
                        assert(seed_views(v@) =~= seq![s@] + seed_views(vold));
                        let whole = seq![s@] + seed_views(vold);
                        assert forall|k: int| 0 <= k < whole.len() implies seed_lens_ok(
                            #[trigger] whole[k],
                        ) by {
                            if k > 0 {
                                assert(whole[k] == seed_views(vold)[k - 1]);
                            }
                        }
                    }
                    Some((v, p2))
                },
            },
        }
    }
}

fn read_bundle(b: &Vec<u8>, pos: usize) -> (r: Option<(Keybundle, usize)>)
    requires
        pos <= b@.len(),
    ensures
        r is Some <==> dec_bundle(tail_of(b@, pos as int)) is Some,
        r is Some ==> ({
            let pr = dec_bundle(tail_of(b@, pos as int))->0;
            &&& (r->0).0@ == pr.0
            &&& bundle_lens_ok((r->0).0@)
            &&& pos <= (r->0).1 <= b@.len()
            &&& tail_of(b@, (r->0).1 as int) == pr.1
        }),
{
    proof {
        reveal(dec_bundle);
    }
    match read_blob(b, pos) {
        None => None,
        Some((id, p1)) => match read_blob(b, p1) {
            None => None,
            Some((secret, p2)) => match read_blob(b, p2) {
                None => None,
                Some((pubkey, p3)) => match read_blob(b, p3) {
                    None => None,
                    Some((pidb, p4)) => match crate::crypto::bytes_to_string(pidb.as_slice()) {
                        None => None,
                        Some(pid) => {
                            let _ilen: usize = id.len();
                            let _slen: usize = secret.len();
                            let _klen: usize = pubkey.len();
                            let _plen: usize = pidb.len();
                            let kb = Keybundle { id, secret, pubkey, pid };
                            proof {
                                lemma_bundle_view(&kb);
                                vstd::utf8::encode_utf8_decode_utf8(kb@.pid);
                                assert(encode_utf8(kb@.pid) == pidb@);
                                assert(bundle_lens_ok(kb@));
                            }
                            Some((kb, p4))
                        },
                    },
                },
            },
        },
    }
}

fn read_bundles(b: &Vec<u8>, pos: usize, count: u64) -> (r: Option<(Vec<Keybundle>, usize)>)
    requires
        pos <= b@.len(),
    ensures
        r is Some <==> dec_bundles(tail_of(b@, pos as int), count as nat) is Some,
        r is Some ==> ({
            let pr = dec_bundles(tail_of(b@, pos as int), count as nat)->0;
            &&& bundle_views((r->0).0@) == pr.0
            &&& bundles_lens_ok(pr.0)
            &&& pos <= (r->0).1 <= b@.len()
            &&& tail_of(b@, (r->0).1 as int) == pr.1
        }),
    decreases count,
{
    if count == 0 {
        let v: Vec<Keybundle> = Vec::new();
        proof {
            assert(bundle_views(v@) =~= Seq::<BundleModel>::empty());
        }
        Some((v, pos))
    } else {
        match read_bundle(b, pos) {
            None => None,
            Some((kb, p1)) => match read_bundles(b, p1, count - 1) {
                None => None,
                Some((v, p2)) => {
                    let ghost vold = v@;
                    let mut v = v;
                    v.insert(0, kb);
                    proof {
                        assert(bundle_views(v@) =~= seq![kb@] + bundle_views(vold));
                        let whole = seq![kb@] + bundle_views(vold);
                        assert forall|k: int| 0 <= k < whole.len() implies bundle_lens_ok(
                            #[trigger] whole[k],
                        ) by {
                            if k > 0 {
                                assert(whole[k] == bundle_views(vold)[k - 1]);
                            }
                        }
                    }
                    Some((v, p2))
                },
            },
        }
    }
}

/// Parse the canonical byte form back into seeds and keybundles. Succeeds
/// exactly when the spec-level parser does, and returns exactly its result.
pub(crate) fn decode_payload(b: &Vec<u8>) -> (r: Option<(Vec<Seed>, Vec<Keybundle>)>)
    ensures
        r is Some <==> dec_ks(b@) is Some,
        r is Some ==> ({
            let m = dec_ks(b@)->0;
            &&& seed_views((r->0).0@) == m.seeds
            &&& bundle_views((r->0).1@) == m.bundles
            &&& ks_lens_ok(m)
        }),
{
    match read_u64(b, 0) {
        None => None,
        Some((ns, p1)) => {
            proof {
                assert(tail_of(b@, p1 as int) =~= b@.subrange(8, b@.len() as int));
            }
            match read_seeds(b, p1, ns) {
                None => None,
                Some((seeds, p2)) => {
                    let ghost r1 = (dec_seeds(b@.subrange(8, b@.len() as int), ns as nat)->0).1;
                    match read_u64(b, p2) {
                        None => None,
                        Some((nb, p3)) => {
                            proof {
                                assert(r1.subrange(0, 8) =~= b@.subrange(
                                    p2 as int,
                                    p2 as int + 8,
                                ));
                                assert(r1.subrange(8, r1.len() as int) =~= tail_of(b@, p3 as int));
                            }
                            match read_bundles(b, p3, nb) {
                                None => None,
                                Some((bundles, p4)) => {
                                    if p4 == b.len() {
                                        let _ns_count: usize = seeds.len();
                                        let _nb_count: usize = bundles.len();
                                        proof {
                                            assert(tail_of(b@, p4 as int).len() == 0);
                                            assert(fits_u64(seed_views(seeds@).len()));
                                            assert(fits_u64(bundle_views(bundles@).len()));
                                        }
                                        Some((seeds, bundles))
                                    } else {
                                        proof {
                                            assert(tail_of(b@, p4 as int).len() != 0);
                                        }
                                        None
                                    }
                                },
                            }
                        },
                    }
                },
            }
        },
    }
}

} // verus!
