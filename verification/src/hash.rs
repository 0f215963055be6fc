//! SHAKE wrappers named after FIPS 204: `H = SHAKE256`, `G = SHAKE128`.
//!
//! The API is incremental (absorb, then squeeze) because rejection sampling
//! (RejNTTPoly / RejBoundedPoly / SampleInBall) consumes an amount of output that is
//! not known in advance. The `sha3` crate computes Keccak; the contracts below model a
//! hasher by the bytes it has absorbed and a reader by its input and how far into the
//! output stream it has read.
use sha3::digest::{ExtendableOutput, Update, XofReader};
use sha3::{Shake128, Shake128Reader, Shake256, Shake256Reader};
use vstd::prelude::*;

verus! {

/// Byte `i` of the SHAKE256 output stream on `input`.
pub uninterp spec fn shake256_byte(input: Seq<u8>, i: int) -> u8;

/// Byte `i` of the SHAKE128 output stream on `input`.
pub uninterp spec fn shake128_byte(input: Seq<u8>, i: int) -> u8;

/// The first `n` bytes of SHAKE256 on `input`.
pub open spec fn shake256(input: Seq<u8>, n: nat) -> Seq<u8> {
    Seq::new(n, |i: int| shake256_byte(input, i))
}

/// The first `n` bytes of SHAKE128 on `input`.
pub open spec fn shake128(input: Seq<u8>, n: nat) -> Seq<u8> {
    Seq::new(n, |i: int| shake128_byte(input, i))
}

/// `H` = SHAKE256 (FIPS 204 §3.7) — absorb side.
#[verifier::external_body]
pub struct H {
    state: Shake256,
}

/// The bytes an `H` has absorbed.
pub uninterp spec fn h_absorbed(h: H) -> Seq<u8>;

/// Squeeze side of an [`H`] instance.
#[verifier::external_body]
pub struct HReader {
    reader: Shake256Reader,
}

/// The input whose SHAKE256 stream an `HReader` reads.
pub uninterp spec fn h_reader_input(r: HReader) -> Seq<u8>;

/// How many bytes of its stream an `HReader` has handed out.
pub uninterp spec fn h_reader_pos(r: HReader) -> nat;

impl H {
    /// A fresh SHAKE256 instance (`Shake256::default`): nothing absorbed.
    #[verifier::external_body]
    pub fn init() -> (h: Self)
        ensures
            h_absorbed(h) == Seq::<u8>::empty(),
    {
        Self { state: Shake256::default() }
    }

    /// `Update::update`: append `data` to the absorbed input.
    #[verifier::external_body]
    pub fn absorb(&mut self, data: &[u8])
        ensures
            h_absorbed(*final(self)) == h_absorbed(*old(self)) + data@,
    {
        self.state.update(data);
    }

    /// `ExtendableOutput::finalize_xof`: a reader at the start of the SHAKE256 stream of
    /// the absorbed input.
    #[verifier::external_body]
    pub fn finalize(self) -> (r: HReader)
        ensures
            h_reader_input(r) == h_absorbed(self),
            h_reader_pos(r) == 0,
    {
        HReader { reader: self.state.finalize_xof() }
    }
}

impl HReader {
    /// `XofReader::read`: fill `out` with the next `out.len()` bytes of the stream.
    #[verifier::external_body]
    pub fn squeeze(&mut self, out: &mut [u8])
        ensures
            final(out)@.len() == old(out)@.len(),
            forall|k: int|
                0 <= k < old(out)@.len() ==> #[trigger] final(out)@[k] == shake256_byte(
                    h_reader_input(*old(self)),
                    h_reader_pos(*old(self)) + k,
                ),
            h_reader_input(*final(self)) == h_reader_input(*old(self)),
            h_reader_pos(*final(self)) == h_reader_pos(*old(self)) + old(out)@.len(),
    {
        self.reader.read(out);
    }

    /// `XofReader::read` into a fresh buffer: the next `n` bytes of the stream.
    #[verifier::external_body]
    pub fn squeeze_vec(&mut self, n: usize) -> (buf: Vec<u8>)
        ensures
            buf@.len() == n,
            forall|k: int|
                0 <= k < n ==> #[trigger] buf@[k] == shake256_byte(
                    h_reader_input(*old(self)),
                    h_reader_pos(*old(self)) + k,
                ),
            h_reader_input(*final(self)) == h_reader_input(*old(self)),
            h_reader_pos(*final(self)) == h_reader_pos(*old(self)) + n,
    {
        let mut buf = vec![0u8; n];
        self.reader.read(&mut buf);
        buf
    }
}

/// `G` = SHAKE128 (FIPS 204 §3.7) — absorb side.
#[verifier::external_body]
pub struct G {
    state: Shake128,
}

/// The bytes a `G` has absorbed.
pub uninterp spec fn g_absorbed(g: G) -> Seq<u8>;

/// Squeeze side of a [`G`] instance.
#[verifier::external_body]
pub struct GReader {
    reader: Shake128Reader,
}

/// The input whose SHAKE128 stream a `GReader` reads.
pub uninterp spec fn g_reader_input(r: GReader) -> Seq<u8>;

/// How many bytes of its stream a `GReader` has handed out.
pub uninterp spec fn g_reader_pos(r: GReader) -> nat;

impl G {
    /// A fresh SHAKE128 instance (`Shake128::default`): nothing absorbed.
    #[verifier::external_body]
    pub fn init() -> (g: Self)
        ensures
            g_absorbed(g) == Seq::<u8>::empty(),
    {
        Self { state: Shake128::default() }
    }

    /// `Update::update`: append `data` to the absorbed input.
    #[verifier::external_body]
    pub fn absorb(&mut self, data: &[u8])
        ensures
            g_absorbed(*final(self)) == g_absorbed(*old(self)) + data@,
    {
        self.state.update(data);
    }

    /// `ExtendableOutput::finalize_xof`: a reader at the start of the SHAKE128 stream of
    /// the absorbed input.
    #[verifier::external_body]
    pub fn finalize(self) -> (r: GReader)
        ensures
            g_reader_input(r) == g_absorbed(self),
            g_reader_pos(r) == 0,
    {
        GReader { reader: self.state.finalize_xof() }
    }
}

impl GReader {
    /// `XofReader::read`: fill `out` with the next `out.len()` bytes of the stream.
    #[verifier::external_body]
    pub fn squeeze(&mut self, out: &mut [u8])
        ensures
            final(out)@.len() == old(out)@.len(),
            forall|k: int|
                0 <= k < old(out)@.len() ==> #[trigger] final(out)@[k] == shake128_byte(
                    g_reader_input(*old(self)),
                    g_reader_pos(*old(self)) + k,
                ),
            g_reader_input(*final(self)) == g_reader_input(*old(self)),
            g_reader_pos(*final(self)) == g_reader_pos(*old(self)) + old(out)@.len(),
    {
        self.reader.read(out);
    }

    /// `XofReader::read` into a fresh buffer: the next `n` bytes of the stream.
    #[verifier::external_body]
    pub fn squeeze_vec(&mut self, n: usize) -> (buf: Vec<u8>)
        ensures
            buf@.len() == n,
            forall|k: int|
                0 <= k < n ==> #[trigger] buf@[k] == shake128_byte(
                    g_reader_input(*old(self)),
                    g_reader_pos(*old(self)) + k,
                ),
            g_reader_input(*final(self)) == g_reader_input(*old(self)),
            g_reader_pos(*final(self)) == g_reader_pos(*old(self)) + n,
    {
        let mut buf = vec![0u8; n];
        self.reader.read(&mut buf);
        buf
    }
}

} // verus!
