//! Pre-hash functions for HashML-DSA (FIPS 204 §5.4): the approved hash functions, their
//! DER-encoded OIDs, and the digests computed with the `sha2` and `sha3` crates.
use crate::hash::{g_reader_input, g_reader_pos, h_reader_input, h_reader_pos, shake128, shake256, G, H};
use crate::verify::bytes_eq;
use sha2::Digest;
use vstd::prelude::*;
use vstd::string::StringSliceAdditionalSpecFns;

verus! {

/// An approved pre-hash function.
#[derive(Clone, Copy, Debug, PartialEq, Eq, Structural)]
pub enum PreHash {
    Sha2_224,
    Sha2_256,
    Sha2_384,
    Sha2_512,
    Sha2_512_224,
    Sha2_512_256,
    Sha3_224,
    Sha3_256,
    Sha3_384,
    Sha3_512,
    Shake128,
    Shake256,
}

/// The SHA2-224 digest of `m`.
pub uninterp spec fn sha2_224(m: Seq<u8>) -> Seq<u8>;

/// The SHA2-256 digest of `m`.
pub uninterp spec fn sha2_256(m: Seq<u8>) -> Seq<u8>;

/// The SHA2-384 digest of `m`.
pub uninterp spec fn sha2_384(m: Seq<u8>) -> Seq<u8>;

/// The SHA2-512 digest of `m`.
pub uninterp spec fn sha2_512(m: Seq<u8>) -> Seq<u8>;

/// The SHA2-512/224 digest of `m`.
pub uninterp spec fn sha2_512_224(m: Seq<u8>) -> Seq<u8>;

/// The SHA2-512/256 digest of `m`.
pub uninterp spec fn sha2_512_256(m: Seq<u8>) -> Seq<u8>;

/// The SHA3-224 digest of `m`.
pub uninterp spec fn sha3_224(m: Seq<u8>) -> Seq<u8>;

/// The SHA3-256 digest of `m`.
pub uninterp spec fn sha3_256(m: Seq<u8>) -> Seq<u8>;

/// The SHA3-384 digest of `m`.
pub uninterp spec fn sha3_384(m: Seq<u8>) -> Seq<u8>;

/// The SHA3-512 digest of `m`.
pub uninterp spec fn sha3_512(m: Seq<u8>) -> Seq<u8>;

/// The ACVP name of each pre-hash function, as bytes.
pub open spec fn acvp_name(ph: PreHash) -> Seq<u8> {
    match ph {
        PreHash::Sha2_224 => seq![83u8, 72, 65, 50, 45, 50, 50, 52],
        PreHash::Sha2_256 => seq![83u8, 72, 65, 50, 45, 50, 53, 54],
        PreHash::Sha2_384 => seq![83u8, 72, 65, 50, 45, 51, 56, 52],
        PreHash::Sha2_512 => seq![83u8, 72, 65, 50, 45, 53, 49, 50],
        PreHash::Sha2_512_224 => seq![83u8, 72, 65, 50, 45, 53, 49, 50, 47, 50, 50, 52],
        PreHash::Sha2_512_256 => seq![83u8, 72, 65, 50, 45, 53, 49, 50, 47, 50, 53, 54],
        PreHash::Sha3_224 => seq![83u8, 72, 65, 51, 45, 50, 50, 52],
        PreHash::Sha3_256 => seq![83u8, 72, 65, 51, 45, 50, 53, 54],
        PreHash::Sha3_384 => seq![83u8, 72, 65, 51, 45, 51, 56, 52],
        PreHash::Sha3_512 => seq![83u8, 72, 65, 51, 45, 53, 49, 50],
        PreHash::Shake128 => seq![83u8, 72, 65, 75, 69, 45, 49, 50, 56],
        PreHash::Shake256 => seq![83u8, 72, 65, 75, 69, 45, 50, 53, 54],
    }
}

/// The pre-hash function whose ACVP name is `name`, if any.
pub open spec fn acvp_lookup(name: Seq<u8>) -> Option<PreHash> {
    if name == acvp_name(PreHash::Sha2_224) {
        Some(PreHash::Sha2_224)
    } else if name == acvp_name(PreHash::Sha2_256) {
        Some(PreHash::Sha2_256)
    } else if name == acvp_name(PreHash::Sha2_384) {
        Some(PreHash::Sha2_384)
    } else if name == acvp_name(PreHash::Sha2_512) {
        Some(PreHash::Sha2_512)
    } else if name == acvp_name(PreHash::Sha2_512_224) {
        Some(PreHash::Sha2_512_224)
    } else if name == acvp_name(PreHash::Sha2_512_256) {
        Some(PreHash::Sha2_512_256)
    } else if name == acvp_name(PreHash::Sha3_224) {
        Some(PreHash::Sha3_224)
    } else if name == acvp_name(PreHash::Sha3_256) {
        Some(PreHash::Sha3_256)
    } else if name == acvp_name(PreHash::Sha3_384) {
        Some(PreHash::Sha3_384)
    } else if name == acvp_name(PreHash::Sha3_512) {
        Some(PreHash::Sha3_512)
    } else if name == acvp_name(PreHash::Shake128) {
        Some(PreHash::Shake128)
    } else if name == acvp_name(PreHash::Shake256) {
        Some(PreHash::Shake256)
    } else {
        None
    }
}

/// The last byte of each pre-hash function's OID (`2.16.840.1.101.3.4.2.x`).
pub open spec fn oid_last(ph: PreHash) -> u8 {
    match ph {
        PreHash::Sha2_224 => 0x04,
        PreHash::Sha2_256 => 0x01,
        PreHash::Sha2_384 => 0x02,
        PreHash::Sha2_512 => 0x03,
        PreHash::Sha2_512_224 => 0x05,
        PreHash::Sha2_512_256 => 0x06,
        PreHash::Sha3_224 => 0x07,
        PreHash::Sha3_256 => 0x08,
        PreHash::Sha3_384 => 0x09,
        PreHash::Sha3_512 => 0x0a,
        PreHash::Shake128 => 0x0b,
        PreHash::Shake256 => 0x0c,
    }
}

/// `PH(M)`: the pre-hash digest of the message.
pub open spec fn digest_spec(ph: PreHash, m: Seq<u8>) -> Seq<u8> {
    match ph {
        PreHash::Sha2_224 => sha2_224(m),
        PreHash::Sha2_256 => sha2_256(m),
        PreHash::Sha2_384 => sha2_384(m),
        PreHash::Sha2_512 => sha2_512(m),
        PreHash::Sha2_512_224 => sha2_512_224(m),
        PreHash::Sha2_512_256 => sha2_512_256(m),
        PreHash::Sha3_224 => sha3_224(m),
        PreHash::Sha3_256 => sha3_256(m),
        PreHash::Sha3_384 => sha3_384(m),
        PreHash::Sha3_512 => sha3_512(m),
        PreHash::Shake128 => shake128(m, 32),
        PreHash::Shake256 => shake256(m, 64),
    }
}

/// `sha2::Sha224::digest` (the `Digest` trait): the SHA2-224 digest of `m`, 28 bytes long.
#[verifier::external_body]
fn sha2_224_digest(m: &[u8]) -> (r: Vec<u8>)
    ensures
        r@ == sha2_224(m@),
        r@.len() == 28,
{
    sha2::Sha224::digest(m).to_vec()
}

/// `sha2::Sha256::digest` (the `Digest` trait): the SHA2-256 digest of `m`, 32 bytes long.
#[verifier::external_body]
fn sha2_256_digest(m: &[u8]) -> (r: Vec<u8>)
    ensures
        r@ == sha2_256(m@),
        r@.len() == 32,
{
    sha2::Sha256::digest(m).to_vec()
}

/// `sha2::Sha384::digest` (the `Digest` trait): the SHA2-384 digest of `m`, 48 bytes long.
#[verifier::external_body]
fn sha2_384_digest(m: &[u8]) -> (r: Vec<u8>)
    ensures
        r@ == sha2_384(m@),
        r@.len() == 48,
{
    sha2::Sha384::digest(m).to_vec()
}

/// `sha2::Sha512::digest` (the `Digest` trait): the SHA2-512 digest of `m`, 64 bytes long.
#[verifier::external_body]
fn sha2_512_digest(m: &[u8]) -> (r: Vec<u8>)
    ensures
        r@ == sha2_512(m@),
        r@.len() == 64,
{
    sha2::Sha512::digest(m).to_vec()
}

/// `sha2::Sha512_224::digest` (the `Digest` trait): the SHA2-512/224 digest of `m`, 28 bytes long.
#[verifier::external_body]
fn sha2_512_224_digest(m: &[u8]) -> (r: Vec<u8>)
    ensures
        r@ == sha2_512_224(m@),
        r@.len() == 28,
{
    sha2::Sha512_224::digest(m).to_vec()
}

/// `sha2::Sha512_256::digest` (the `Digest` trait): the SHA2-512/256 digest of `m`, 32 bytes long.
#[verifier::external_body]
fn sha2_512_256_digest(m: &[u8]) -> (r: Vec<u8>)
    ensures
        r@ == sha2_512_256(m@),
        r@.len() == 32,
{
    sha2::Sha512_256::digest(m).to_vec()
}

/// `sha3::Sha3_224::digest` (the `Digest` trait): the SHA3-224 digest of `m`, 28 bytes long.
#[verifier::external_body]
fn sha3_224_digest(m: &[u8]) -> (r: Vec<u8>)
    ensures
        r@ == sha3_224(m@),
        r@.len() == 28,
{
    sha3::Sha3_224::digest(m).to_vec()
}

/// `sha3::Sha3_256::digest` (the `Digest` trait): the SHA3-256 digest of `m`, 32 bytes long.
#[verifier::external_body]
fn sha3_256_digest(m: &[u8]) -> (r: Vec<u8>)
    ensures
        r@ == sha3_256(m@),
        r@.len() == 32,
{
    sha3::Sha3_256::digest(m).to_vec()
}

/// `sha3::Sha3_384::digest` (the `Digest` trait): the SHA3-384 digest of `m`, 48 bytes long.
#[verifier::external_body]
fn sha3_384_digest(m: &[u8]) -> (r: Vec<u8>)
    ensures
        r@ == sha3_384(m@),
        r@.len() == 48,
{
    sha3::Sha3_384::digest(m).to_vec()
}

/// `sha3::Sha3_512::digest` (the `Digest` trait): the SHA3-512 digest of `m`, 64 bytes long.
#[verifier::external_body]
fn sha3_512_digest(m: &[u8]) -> (r: Vec<u8>)
    ensures
        r@ == sha3_512(m@),
        r@.len() == 64,
{
    sha3::Sha3_512::digest(m).to_vec()
}

impl PreHash {
    /// Map an ACVP hashAlg name to a [`PreHash`], or `None` if unsupported.
    pub fn from_acvp(name: &str) -> (r: Option<Self>)
        ensures
            r == acvp_lookup(name.spec_bytes()),
    {
        let b = name.as_bytes();
        let n: [u8; 8] = [83, 72, 65, 50, 45, 50, 50, 52];
        assert(n@ =~= acvp_name(PreHash::Sha2_224));
        if bytes_eq(b, n.as_slice()) {
            return Some(PreHash::Sha2_224);
        }
        let n: [u8; 8] = [83, 72, 65, 50, 45, 50, 53, 54];
        assert(n@ =~= acvp_name(PreHash::Sha2_256));
        if bytes_eq(b, n.as_slice()) {
            return Some(PreHash::Sha2_256);
        }
        let n: [u8; 8] = [83, 72, 65, 50, 45, 51, 56, 52];
        assert(n@ =~= acvp_name(PreHash::Sha2_384));
        if bytes_eq(b, n.as_slice()) {
            return Some(PreHash::Sha2_384);
        }
        let n: [u8; 8] = [83, 72, 65, 50, 45, 53, 49, 50];
        assert(n@ =~= acvp_name(PreHash::Sha2_512));
        if bytes_eq(b, n.as_slice()) {
            return Some(PreHash::Sha2_512);
        }
        let n: [u8; 12] = [83, 72, 65, 50, 45, 53, 49, 50, 47, 50, 50, 52];
        assert(n@ =~= acvp_name(PreHash::Sha2_512_224));
        if bytes_eq(b, n.as_slice()) {
            return Some(PreHash::Sha2_512_224);
        }
        let n: [u8; 12] = [83, 72, 65, 50, 45, 53, 49, 50, 47, 50, 53, 54];
        assert(n@ =~= acvp_name(PreHash::Sha2_512_256));
        if bytes_eq(b, n.as_slice()) {
            return Some(PreHash::Sha2_512_256);
        }
        let n: [u8; 8] = [83, 72, 65, 51, 45, 50, 50, 52];
        assert(n@ =~= acvp_name(PreHash::Sha3_224));
        if bytes_eq(b, n.as_slice()) {
            return Some(PreHash::Sha3_224);
        }
        let n: [u8; 8] = [83, 72, 65, 51, 45, 50, 53, 54];
        assert(n@ =~= acvp_name(PreHash::Sha3_256));
        if bytes_eq(b, n.as_slice()) {
            return Some(PreHash::Sha3_256);
        }
        let n: [u8; 8] = [83, 72, 65, 51, 45, 51, 56, 52];
        assert(n@ =~= acvp_name(PreHash::Sha3_384));
        if bytes_eq(b, n.as_slice()) {
            return Some(PreHash::Sha3_384);
        }
        let n: [u8; 8] = [83, 72, 65, 51, 45, 53, 49, 50];
        assert(n@ =~= acvp_name(PreHash::Sha3_512));
        if bytes_eq(b, n.as_slice()) {
            return Some(PreHash::Sha3_512);
        }
        let n: [u8; 9] = [83, 72, 65, 75, 69, 45, 49, 50, 56];
        assert(n@ =~= acvp_name(PreHash::Shake128));
        if bytes_eq(b, n.as_slice()) {
            return Some(PreHash::Shake128);
        }
        let n: [u8; 9] = [83, 72, 65, 75, 69, 45, 50, 53, 54];
        assert(n@ =~= acvp_name(PreHash::Shake256));
        if bytes_eq(b, n.as_slice()) {
            return Some(PreHash::Shake256);
        }
        None
    }

    /// The 11-byte DER-encoded OID.
    pub fn oid(self) -> (r: [u8; 11])
        ensures
            r@ == seq![0x06u8, 0x09, 0x60, 0x86, 0x48, 0x01, 0x65, 0x03, 0x04, 0x02, oid_last(self)],
    {
        let last: u8 = match self {
            PreHash::Sha2_224 => 0x04,
            PreHash::Sha2_256 => 0x01,
            PreHash::Sha2_384 => 0x02,
            PreHash::Sha2_512 => 0x03,
            PreHash::Sha2_512_224 => 0x05,
            PreHash::Sha2_512_256 => 0x06,
            PreHash::Sha3_224 => 0x07,
            PreHash::Sha3_256 => 0x08,
            PreHash::Sha3_384 => 0x09,
            PreHash::Sha3_512 => 0x0a,
            PreHash::Shake128 => 0x0b,
            PreHash::Shake256 => 0x0c,
        };
        let r = [0x06, 0x09, 0x60, 0x86, 0x48, 0x01, 0x65, 0x03, 0x04, 0x02, last];
        assert(r@ =~= seq![0x06u8, 0x09, 0x60, 0x86, 0x48, 0x01, 0x65, 0x03, 0x04, 0x02, oid_last(self)]);
        r
    }

    /// PH(M), the pre-hash digest of the message.
    pub fn digest(self, m: &[u8]) -> (r: Vec<u8>)
        ensures
            r@ == digest_spec(self, m@),
    {
        match self {
            PreHash::Sha2_224 => sha2_224_digest(m),
            PreHash::Sha2_256 => sha2_256_digest(m),
            PreHash::Sha2_384 => sha2_384_digest(m),
            PreHash::Sha2_512 => sha2_512_digest(m),
            PreHash::Sha2_512_224 => sha2_512_224_digest(m),
            PreHash::Sha2_512_256 => sha2_512_256_digest(m),
            PreHash::Sha3_224 => sha3_224_digest(m),
            PreHash::Sha3_256 => sha3_256_digest(m),
            PreHash::Sha3_384 => sha3_384_digest(m),
            PreHash::Sha3_512 => sha3_512_digest(m),
            PreHash::Shake128 => shake(m, 32, true),
            PreHash::Shake256 => shake(m, 64, false),
        }
    }
}

/// A SHAKE XOF squeezed to `out_len` bytes: SHAKE128 when `is128`, else SHAKE256.
fn shake(m: &[u8], out_len: usize, is128: bool) -> (r: Vec<u8>)
    ensures
        is128 ==> r@ == shake128(m@, out_len as nat),
        !is128 ==> r@ == shake256(m@, out_len as nat),
{
    if is128 {
        let mut g = G::init();
        g.absorb(m);
        let mut rd = g.finalize();
        let r = rd.squeeze_vec(out_len);
        assert(r@ =~= shake128(m@, out_len as nat));
        r
    } else {
        let mut h = H::init();
        h.absorb(m);
        let mut rd = h.finalize();
        let r = rd.squeeze_vec(out_len);
        assert(r@ =~= shake256(m@, out_len as nat));
        r
    }
}

/// The OID that HashML-DSA writes into `M'` right after the context is NIST's
/// registration of the pre-hash function under id-hashAlgs (2.16.840.1.101.3.4.2),
/// DER-encoded as `06 09 60 86 48 01 65 03 04 02 n` with `n` = 1 SHA-256, 2 SHA-384,
/// 3 SHA-512, 4 SHA-224, 5 SHA-512/224, 6 SHA-512/256, 7 SHA3-224, 8 SHA3-256,
/// 9 SHA3-384, 10 SHA3-512, 11 SHAKE128, 12 SHAKE256; the digest follows it.
pub proof fn lemma_prehash_oid_registry(ctx: Seq<u8>, m: Seq<u8>, ph: PreHash)
    ensures
        ({
            let mp = crate::sign::m_prime_prehash_spec(ctx, m, ph);
            let at = 2 + ctx.len() as int;
            &&& mp.subrange(at, at + 10) == seq![0x06u8, 0x09, 0x60, 0x86, 0x48, 0x01, 0x65, 0x03, 0x04, 0x02]
            &&& mp.subrange(at + 11, mp.len() as int) == digest_spec(ph, m)
            &&& ph == PreHash::Sha2_256 ==> mp[at + 10] == 1
            &&& ph == PreHash::Sha2_384 ==> mp[at + 10] == 2
            &&& ph == PreHash::Sha2_512 ==> mp[at + 10] == 3
            &&& ph == PreHash::Sha2_224 ==> mp[at + 10] == 4
            &&& ph == PreHash::Sha2_512_224 ==> mp[at + 10] == 5
            &&& ph == PreHash::Sha2_512_256 ==> mp[at + 10] == 6
            &&& ph == PreHash::Sha3_224 ==> mp[at + 10] == 7
            &&& ph == PreHash::Sha3_256 ==> mp[at + 10] == 8
            &&& ph == PreHash::Sha3_384 ==> mp[at + 10] == 9
            &&& ph == PreHash::Sha3_512 ==> mp[at + 10] == 10
            &&& ph == PreHash::Shake128 ==> mp[at + 10] == 11
            &&& ph == PreHash::Shake256 ==> mp[at + 10] == 12
        }),
{
    let mp = crate::sign::m_prime_prehash_spec(ctx, m, ph);
    let at = 2 + ctx.len() as int;
    assert(mp.subrange(at, at + 10) =~= seq![0x06u8, 0x09, 0x60, 0x86, 0x48, 0x01, 0x65, 0x03, 0x04, 0x02]);
    assert(mp[at + 10] == oid_last(ph));
    assert(mp.subrange(at + 11, mp.len() as int) =~= digest_spec(ph, m));
}

} // verus!
