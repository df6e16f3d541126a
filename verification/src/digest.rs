//! Content digests.

use vstd::prelude::*;

verus! {

/// The BLAKE3 hash of a byte string in lowercase hexadecimal, as `blake3::Hasher::finalize` and
/// `Hash::to_hex` give it.
pub uninterp spec fn blake3_hex(content: Seq<u8>) -> Seq<char>;

/// A hash that is being computed.
#[verifier::external_type_specification]
#[verifier::external_body]
pub struct ExHasher(blake3::Hasher);

/// The bytes that a hasher has been given.
pub uninterp spec fn hashed_bytes(hasher: blake3::Hasher) -> Seq<u8>;

/// Whether a hasher computes the plain hash function: it came from `Hasher::new` and has only
/// been given bytes.
pub uninterp spec fn hashes_plainly(hasher: blake3::Hasher) -> bool;

/// `blake3::Hasher::new`: a hasher for the plain hash function that has been given nothing.
#[verifier::external_body]
fn new_hasher() -> (hasher: blake3::Hasher)
    ensures
        hashes_plainly(hasher),
        hashed_bytes(hasher) == Seq::<u8>::empty(),
{
    blake3::Hasher::new()
}

/// `blake3::Hasher::update`: the hasher is given further bytes, and nothing else about it changes.
///
/// A hasher counts what it has been given in 64 bits.
#[verifier::external_body]
fn update_hasher(hasher: &mut blake3::Hasher, content: &[u8])
    requires
        hashes_plainly(*old(hasher)),
        hashed_bytes(*old(hasher)).len() + content@.len() <= u64::MAX,
    ensures
        hashes_plainly(*final(hasher)),
        hashed_bytes(*final(hasher)) == hashed_bytes(*old(hasher)) + content@,
{
    hasher.update(content);
}

/// `blake3::Hasher::finalize` and `Hash::to_hex`: the hash depends on nothing but all the bytes
/// that a plain hasher was given, however they were divided over updates.
#[verifier::external_body]
fn hasher_hex(hasher: &blake3::Hasher) -> (hex: String)
    requires
        hashes_plainly(*hasher),
    ensures
        hex@ == blake3_hex(hashed_bytes(*hasher)),
{
    hasher.finalize().to_hex().to_string()
}

/// The digest of a byte string: the algorithm, the hash, and the length.
#[derive(Debug, Clone)]
pub struct CacheDigest {
    /// The name of the hash algorithm.
    pub algorithm: String,
    /// The hash, in the algorithm's usual spelling.
    pub hash: String,
    /// The number of bytes that were hashed.
    pub size: u64,
}

/// What a [`CacheDigest`] says.
#[verifier::ext_equal]
pub struct DigestModel {
    pub algorithm: Seq<char>,
    pub hash: Seq<char>,
    pub size: u64,
}

impl View for CacheDigest {
    type V = DigestModel;

    open spec fn view(&self) -> DigestModel {
        DigestModel { algorithm: self.algorithm@, hash: self.hash@, size: self.size }
    }
}

/// The digest of a byte string.
pub open spec fn content_digest(content: Seq<u8>) -> DigestModel {
    DigestModel {
        algorithm: "blake3"@,
        hash: blake3_hex(content),
        size: content.len() as u64,
    }
}

impl CacheDigest {
    /// The digest of a byte string.
    pub fn blake3(content: &[u8]) -> (digest: CacheDigest)
        ensures
            digest@ == content_digest(content@),
            digest@.size == content@.len(),
    {
        let size = content.len() as u64;
        let mut hasher = new_hasher();
        update_hasher(&mut hasher, content);
        assert(hashed_bytes(hasher) =~= content@);
        CacheDigest { algorithm: "blake3".to_owned(), hash: hasher_hex(&hasher), size }
    }

    /// A copy of the digest.
    pub fn duplicate(&self) -> (copy: CacheDigest)
        ensures
            copy@ == self@,
    {
        CacheDigest {
            algorithm: self.algorithm.clone(),
            hash: self.hash.clone(),
            size: self.size,
        }
    }
}

impl PartialEq for CacheDigest {
    fn eq(&self, other: &CacheDigest) -> (same: bool) {
        self.algorithm == other.algorithm && self.hash == other.hash && self.size == other.size
    }
}

impl vstd::std_specs::cmp::PartialEqSpecImpl for CacheDigest {
    open spec fn obeys_eq_spec() -> bool {
        true
    }

    open spec fn eq_spec(&self, other: &CacheDigest) -> bool {
        self@ == other@
    }
}

impl Eq for CacheDigest {

}

/// The digest of bytes that arrive in pieces.
pub struct RunningDigest {
    hasher: blake3::Hasher,
    size: u64,
}

impl RunningDigest {
    #[verifier::type_invariant]
    spec fn well_formed(self) -> bool {
        &&& hashes_plainly(self.hasher)
        &&& self.size == hashed_bytes(self.hasher).len()
    }

    /// Everything that has arrived.
    pub closed spec fn content(&self) -> Seq<u8> {
        hashed_bytes(self.hasher)
    }

    /// Start with nothing.
    pub fn start() -> (digest: RunningDigest)
        ensures
            digest.content() == Seq::<u8>::empty(),
    {
        RunningDigest { hasher: new_hasher(), size: 0 }
    }

    /// The number of bytes that have arrived.
    pub fn size(&self) -> (size: u64)
        ensures
            size == self.content().len(),
    {
        proof {
            use_type_invariant(self);
        }
        self.size
    }

    /// Take in another piece, unless the length no longer fits.
    pub fn feed(self, piece: &[u8]) -> (digest: Option<RunningDigest>)
        ensures
            digest is None <==> self.content().len() + piece@.len() > u64::MAX,
            digest matches Some(digest) ==> digest.content() == self.content() + piece@,
    {
        proof {
            use_type_invariant(&self);
        }
        let RunningDigest { mut hasher, size } = self;
        match size.checked_add(piece.len() as u64) {
            Some(size) => {
                update_hasher(&mut hasher, piece);
                Some(RunningDigest { hasher, size })
            },
            None => None,
        }
    }

    /// The digest of everything that has arrived.
    pub fn finish(self) -> (digest: CacheDigest)
        ensures
            digest@ == content_digest(self.content()),
            digest@.size == self.content().len(),
    {
        proof {
            use_type_invariant(&self);
        }
        CacheDigest {
            algorithm: "blake3".to_owned(),
            hash: hasher_hex(&self.hasher),
            size: self.size,
        }
    }
}

} // verus!
