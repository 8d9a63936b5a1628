use crate::kind::DigestKind;
use sha2::Digest;
use vstd::prelude::*;

verus! {

/// A running MD5 computation: an `md5::Md5` that has taken in some bytes.
/// Only the bytes taken in so far are known of it.
#[verifier::external_body]
pub struct Md5State {
    inner: md5::Md5,
}

/// A running SHA-1 computation: a `sha1::Sha1` that has taken in some bytes.
/// Only the bytes taken in so far are known of it.
#[verifier::external_body]
pub struct Sha1State {
    inner: sha1::Sha1,
}

/// A running SHA-256 computation: a `sha2::Sha256` that has taken in some
/// bytes. Only the bytes taken in so far are known of it.
#[verifier::external_body]
pub struct Sha256State {
    inner: sha2::Sha256,
}

/// The bytes that an MD5 state has taken in so far.
pub uninterp spec fn md5_absorbed(h: Md5State) -> Seq<u8>;

/// The MD5 digest of a byte string.
pub uninterp spec fn md5_of(data: Seq<u8>) -> Seq<u8>;

/// The bytes that a SHA-1 state has taken in so far.
pub uninterp spec fn sha1_absorbed(h: Sha1State) -> Seq<u8>;

/// The SHA-1 digest of a byte string.
pub uninterp spec fn sha1_of(data: Seq<u8>) -> Seq<u8>;

/// The bytes that a SHA-256 state has taken in so far.
pub uninterp spec fn sha256_absorbed(h: Sha256State) -> Seq<u8>;

/// The SHA-256 digest of a byte string.
pub uninterp spec fn sha256_of(data: Seq<u8>) -> Seq<u8>;

/// Relies on `Digest::new` for `md5::Md5`: a new state has taken in nothing.
#[verifier::external_body]
fn md5_start() -> (r: Md5State)
    ensures
        md5_absorbed(r) == Seq::<u8>::empty(),
{
    Md5State { inner: md5::Md5::new() }
}

/// Relies on `Digest::update` for `md5::Md5`: the chunk is appended to the input.
#[verifier::external_body]
fn md5_absorb(h: &mut Md5State, chunk: &[u8])
    ensures
        md5_absorbed(*final(h)) == md5_absorbed(*old(h)) + chunk@,
{
    h.inner.update(chunk)
}

/// Relies on `Digest::finalize` for `md5::Md5`: the 16-byte digest of the input.
#[verifier::external_body]
fn md5_finish(h: Md5State) -> (r: Vec<u8>)
    ensures
        r@ == md5_of(md5_absorbed(h)),
        r@.len() == 16,
{
    h.inner.finalize().to_vec()
}

/// Relies on `Digest::new` for `sha1::Sha1`: a new state has taken in nothing.
#[verifier::external_body]
fn sha1_start() -> (r: Sha1State)
    ensures
        sha1_absorbed(r) == Seq::<u8>::empty(),
{
    Sha1State { inner: sha1::Sha1::new() }
}

/// Relies on `Digest::update` for `sha1::Sha1`: the chunk is appended to the input.
#[verifier::external_body]
fn sha1_absorb(h: &mut Sha1State, chunk: &[u8])
    ensures
        sha1_absorbed(*final(h)) == sha1_absorbed(*old(h)) + chunk@,
{
    h.inner.update(chunk)
}

/// Relies on `Digest::finalize` for `sha1::Sha1`: the 20-byte digest of the input.
#[verifier::external_body]
fn sha1_finish(h: Sha1State) -> (r: Vec<u8>)
    ensures
        r@ == sha1_of(sha1_absorbed(h)),
        r@.len() == 20,
{
    h.inner.finalize().to_vec()
}

/// Relies on `Digest::new` for `sha2::Sha256`: a new state has taken in nothing.
#[verifier::external_body]
fn sha256_start() -> (r: Sha256State)
    ensures
        sha256_absorbed(r) == Seq::<u8>::empty(),
{
    Sha256State { inner: sha2::Sha256::new() }
}

/// Relies on `Digest::update` for `sha2::Sha256`: the chunk is appended to the input.
#[verifier::external_body]
fn sha256_absorb(h: &mut Sha256State, chunk: &[u8])
    ensures
        sha256_absorbed(*final(h)) == sha256_absorbed(*old(h)) + chunk@,
{
    h.inner.update(chunk)
}

/// Relies on `Digest::finalize` for `sha2::Sha256`: the 32-byte digest of the input.
#[verifier::external_body]
fn sha256_finish(h: Sha256State) -> (r: Vec<u8>)
    ensures
        r@ == sha256_of(sha256_absorbed(h)),
        r@.len() == 32,
{
    h.inner.finalize().to_vec()
}

/// The lower-case ASCII hex digit of a value below 16.
pub open spec fn hex_digit(n: u8) -> u8 {
    if n < 10 {
        (48 + n) as u8
    } else {
        (87 + n) as u8
    }
}

/// Two lower-case hex digits per byte, high nibble first.
pub open spec fn hex_ascii(b: Seq<u8>) -> Seq<u8> {
    Seq::new(
        2 * b.len(),
        |i: int|
            if i % 2 == 0 {
                hex_digit(b[i / 2] / 16)
            } else {
                hex_digit(b[i / 2] % 16)
            },
    )
}

/// Relies on `hex::encode`: two lower-case hex digits per byte, high nibble first.
#[verifier::external_body]
fn hex_encode(b: &[u8]) -> (r: Vec<u8>)
    ensures
        r@ == hex_ascii(b@),
{
    hex::encode(b).into_bytes()
}

/// The number of bytes in a raw digest of `kind`.
pub open spec fn digest_size(kind: DigestKind) -> nat {
    match kind {
        DigestKind::MD5 => 16,
        DigestKind::SHA1 => 20,
        DigestKind::SHA2 => 32,
    }
}

/// A lower-case ASCII hex digit.
pub open spec fn is_lower_hex(c: u8) -> bool {
    (48 <= c && c <= 57) || (97 <= c && c <= 102)
}

/// The raw digest of `data` under `kind`.
pub open spec fn raw_digest(kind: DigestKind, data: Seq<u8>) -> Seq<u8> {
    match kind {
        DigestKind::MD5 => md5_of(data),
        DigestKind::SHA1 => sha1_of(data),
        DigestKind::SHA2 => sha256_of(data),
    }
}

/// The hex digest of `data` under `kind`, as ASCII bytes.
pub open spec fn digest_hex(kind: DigestKind, data: Seq<u8>) -> Seq<u8> {
    hex_ascii(raw_digest(kind, data))
}

enum HashState {
    Md5(Md5State),
    Sha1(Sha1State),
    Sha256(Sha256State),
}

/// Streams content through one hash algorithm, chunk by chunk, so that
/// content of any size is digested in bounded memory.
pub struct Digester {
    state: HashState,
}

impl Digester {
    /// The algorithm this digester runs.
    pub closed spec fn kind(&self) -> DigestKind {
        match self.state {
            HashState::Md5(_) => DigestKind::MD5,
            HashState::Sha1(_) => DigestKind::SHA1,
            HashState::Sha256(_) => DigestKind::SHA2,
        }
    }

    /// All content taken in so far, in order.
    pub closed spec fn absorbed(&self) -> Seq<u8> {
        match self.state {
            HashState::Md5(h) => md5_absorbed(h),
            HashState::Sha1(h) => sha1_absorbed(h),
            HashState::Sha256(h) => sha256_absorbed(h),
        }
    }

    pub fn new(kind: DigestKind) -> (r: Digester)
        ensures
            r.kind() == kind,
            r.absorbed() == Seq::<u8>::empty(),
    {
        let state = match kind {
            DigestKind::MD5 => HashState::Md5(md5_start()),
            DigestKind::SHA1 => HashState::Sha1(sha1_start()),
            DigestKind::SHA2 => HashState::Sha256(sha256_start()),
        };
        Digester { state }
    }

    /// Takes in the next chunk of content.
    pub fn update(&mut self, chunk: &[u8])
        ensures
            final(self).kind() == old(self).kind(),
            final(self).absorbed() == old(self).absorbed() + chunk@,
    {
        match &mut self.state {
            HashState::Md5(h) => md5_absorb(h, chunk),
            HashState::Sha1(h) => sha1_absorb(h, chunk),
            HashState::Sha256(h) => sha256_absorb(h, chunk),
        }
    }

    /// The hex digest of everything taken in, as ASCII bytes: two lower-case
    /// hex digits per byte of the algorithm's digest.
    pub fn finish(self) -> (r: Vec<u8>)
        ensures
            r@ == digest_hex(self.kind(), self.absorbed()),
            r@.len() == 2 * digest_size(self.kind()),
            forall|i: int| 0 <= i < r@.len() ==> is_lower_hex(#[trigger] r@[i]),
    {
        let raw = match self.state {
            HashState::Md5(h) => md5_finish(h),
            HashState::Sha1(h) => sha1_finish(h),
            HashState::Sha256(h) => sha256_finish(h),
        };
        let r = hex_encode(raw.as_slice());
        assert forall|i: int| 0 <= i < r@.len() implies is_lower_hex(#[trigger] r@[i]) by {
            let b = raw@[i / 2];
            assert(b / 16 < 16 && b % 16 < 16);
        }
        r
    }
}

/// Digesting is deterministic: two digesters of one kind that took in the same
/// content, whatever its chunking, yield the same digest.
pub proof fn lemma_digest_deterministic(a: Digester, b: Digester)
    requires
        a.kind() == b.kind(),
        a.absorbed() == b.absorbed(),
    ensures
        digest_hex(a.kind(), a.absorbed()) == digest_hex(b.kind(), b.absorbed()),
{
}

} // verus!
