//! Git blob object ids: SHA-1 over the loose header `blob <len>\0` followed
//! by the content, written as lowercase hex. Content may be fed in chunks of
//! any size, so a file never has to be held in memory whole.
use vstd::prelude::*;
use crate::oid::OidHash;

verus! {

#[verifier::external_type_specification]
#[verifier::external_body]
pub struct ExHasher(gix_index::hash::Hasher);

/// The SHA-1 digest of `data`.
pub uninterp spec fn sha1_digest(data: Seq<u8>) -> Seq<u8>;

/// Whether the SHA-1 collision detection of `sha1dc` flags `data` as part
/// of a collision attack; the verdict depends on the bytes alone.
pub uninterp spec fn sha1_collision(data: Seq<u8>) -> bool;

/// The bytes a hasher has been fed since it was created.
pub uninterp spec fn hasher_input(h: gix_index::hash::Hasher) -> Seq<u8>;

/// ASCII digit for `d` in `0..10`.
pub open spec fn digit(d: nat) -> u8 {
    (48 + d) as u8
}

/// Decimal spelling of `n`, without leading zeros.
pub open spec fn decimal(n: nat) -> Seq<u8>
    decreases n,
{
    if n < 10 {
        seq![digit(n)]
    } else {
        decimal(n / 10).push(digit(n % 10))
    }
}

/// Git's loose object header for a blob of `size` bytes: `blob <size>\0`.
pub open spec fn blob_header(size: nat) -> Seq<u8> {
    seq![98u8, 108u8, 111u8, 98u8, 32u8] + decimal(size) + seq![0u8]
}

/// Lowercase hex digit for `n` in `0..16`.
pub open spec fn hex_digit(n: int) -> u8 {
    if n < 10 {
        (48 + n) as u8
    } else {
        (87 + n) as u8
    }
}

/// Two lowercase hex digits per byte, high nibble first.
pub open spec fn hex_lower(b: Seq<u8>) -> Seq<u8> {
    Seq::new(
        2 * b.len(),
        |i: int|
            if i % 2 == 0 {
                hex_digit(b[i / 2] as int / 16)
            } else {
                hex_digit(b[i / 2] as int % 16)
            },
    )
}

/// The object id that `git hash-object` gives a file holding `content`.
pub open spec fn git_blob_oid(content: Seq<u8>) -> Seq<u8> {
    hex_lower(sha1_digest(blob_header(content.len()) + content))
}

/// Relies on `gix_hash::hasher(Kind::Sha1)`: a fresh SHA-1 hasher that has
/// been fed nothing.
#[verifier::external_body]
fn sha1_hasher() -> (h: gix_index::hash::Hasher)
    ensures
        hasher_input(h) == Seq::<u8>::empty(),
{
    gix_index::hash::hasher(gix_index::hash::Kind::Sha1)
}

/// Relies on `gix_hash::Hasher::update`: appends `bytes` to what was fed.
#[verifier::external_body]
fn hasher_update(h: &mut gix_index::hash::Hasher, bytes: &[u8])
    ensures
        hasher_input(*final(h)) == hasher_input(*old(h)) + bytes@,
{
    h.update(bytes)
}

/// Relies on `gix_hash::Hasher::try_finalize` and `ObjectId::as_slice`: the
/// 20-byte SHA-1 digest of what was fed, or `None` where the collision
/// detection of `sha1dc` refuses the input.
#[verifier::external_body]
fn hasher_finalize(h: gix_index::hash::Hasher) -> (r: Option<Vec<u8>>)
    ensures
        r is None <==> sha1_collision(hasher_input(h)),
        r matches Some(d) ==> d@ == sha1_digest(hasher_input(h)) && d@.len() == 20,
{
    match h.try_finalize() {
        Ok(id) => Some(id.as_slice().to_vec()),
        Err(_) => None,
    }
}

/// Relies on `gix_object::encode::loose_header`: `blob`, a space, the
/// size in decimal and a NUL byte.
#[verifier::external_body]
fn loose_blob_header(size: u64) -> (r: Vec<u8>)
    ensures
        r@ == blob_header(size as nat),
{
    gix_object::encode::loose_header(gix_object::Kind::Blob, size).to_vec()
}

/// Relies on `hex::encode_to_slice`: two lowercase hex digits per byte into
/// an output of exactly twice the input length.
#[verifier::external_body]
fn hex_encode_digest(d: &[u8]) -> (r: [u8; 40])
    requires
        d@.len() == 20,
    ensures
        r@ == hex_lower(d@),
{
    let mut buf = [0u8; 40];
    let _ = hex::encode_to_slice(d, &mut buf);
    buf
}

/// Why a blob id could not be produced.
#[derive(Debug, Clone, Copy, PartialEq, Eq)]
pub enum BlobHashError {
    /// The bytes fed differ in number from the size given up front.
    LengthMismatch,
    /// SHA-1 collision detection refused the content.
    Collision,
}

/// Computes a git blob id from content fed in chunks.
pub struct BlobHasher {
    inner: gix_index::hash::Hasher,
    declared: u64,
    count: u64,
    overflow: bool,
    fed: Ghost<Seq<u8>>,
}

impl BlobHasher {
    #[verifier::type_invariant]
    spec fn inv(self) -> bool {
        &&& hasher_input(self.inner) == blob_header(self.declared as nat) + self.fed@
        &&& !self.overflow ==> self.count == self.fed@.len()
        &&& self.overflow ==> self.fed@.len() > u64::MAX
    }

    /// The content fed so far.
    pub closed spec fn content(&self) -> Seq<u8> {
        self.fed@
    }

    /// The size given when the hasher was made.
    pub closed spec fn declared_len(&self) -> nat {
        self.declared as nat
    }

    /// A hasher for a blob that will hold `size` bytes.
    pub fn new(size: u64) -> (r: Self)
        ensures
            r.content() == Seq::<u8>::empty(),
            r.declared_len() == size,
    {
        let mut inner = sha1_hasher();
        let header = loose_blob_header(size);
        hasher_update(&mut inner, header.as_slice());
        assert(blob_header(size as nat) + Seq::<u8>::empty() =~= blob_header(size as nat));
        BlobHasher { inner, declared: size, count: 0, overflow: false, fed: Ghost(Seq::empty()) }
    }

    /// Feeds the next chunk of content.
    pub fn update(self, chunk: &[u8]) -> (r: Self)
        ensures
            r.content() == self.content() + chunk@,
            r.declared_len() == self.declared_len(),
    {
        proof {
            use_type_invariant(&self);
        }
        let BlobHasher { mut inner, declared, count, overflow, fed } = self;
        hasher_update(&mut inner, chunk);
        let n = chunk.len() as u64;
        let (count, overflow) = if overflow || count > u64::MAX - n {
            (count, true)
        } else {
            (count + n, false)
        };
        let ghost fed2 = fed@ + chunk@;
        assert(blob_header(declared as nat) + fed2 =~= blob_header(declared as nat) + fed@ + chunk@);
        BlobHasher { inner, declared, count, overflow, fed: Ghost(fed2) }
    }

    /// The id of the content fed, which must be as long as declared.
    pub fn finish(self) -> (r: Result<OidHash, BlobHashError>)
        ensures
            self.content().len() != self.declared_len() ==> r == Err::<
                OidHash,
                BlobHashError,
            >(BlobHashError::LengthMismatch),
            self.content().len() == self.declared_len() ==> r != Err::<
                OidHash,
                BlobHashError,
            >(BlobHashError::LengthMismatch),
            self.content().len() == self.declared_len() ==> (r is Ok <==> !sha1_collision(
                blob_header(self.declared_len()) + self.content(),
            )),
            r matches Ok(oid) ==> oid@ == git_blob_oid(self.content()),
    {
        proof {
            use_type_invariant(&self);
        }
        let ghost content = self.fed@;
        let BlobHasher { inner, declared, count, overflow, fed } = self;
        if overflow || count != declared {
            return Err(BlobHashError::LengthMismatch);
        }
        match hasher_finalize(inner) {
            Some(d) => {
                let buf = hex_encode_digest(d.as_slice());
                Ok(OidHash::from_hex_buf(buf))
            },
            None => Err(BlobHashError::Collision),
        }
    }
}

/// The git blob id of `content`, as `git hash-object` gives it for a file
/// holding those bytes.
pub fn hash_blob(content: &[u8]) -> (r: Result<OidHash, BlobHashError>)
    ensures
        r != Err::<OidHash, BlobHashError>(BlobHashError::LengthMismatch),
        r is Ok <==> !sha1_collision(blob_header(content@.len() as nat) + content@),
        r matches Ok(oid) ==> oid@ == git_blob_oid(content@),
{
    let h = BlobHasher::new(content.len() as u64);
    let h = h.update(content);
    assert(Seq::<u8>::empty() + content@ =~= content@);
    h.finish()
}

} // verus!
