use vstd::prelude::*;

verus! {

#[verifier::external_type_specification]
#[verifier::external_body]
pub struct ExBufSha256(lsx::sha256::BufSha256);

/// The digest that SHA-256 assigns to a byte string. Its value is fixed by
/// the algorithm; the library only ever names it.
pub uninterp spec fn sha256_of(data: Seq<u8>) -> Seq<u8>;

/// The bytes a buffered hasher has absorbed so far, in order.
pub uninterp spec fn hasher_fed(h: lsx::sha256::BufSha256) -> Seq<u8>;

/// Relies on lsx::sha256::BufSha256::new: a fresh hasher has absorbed
/// nothing.
#[verifier::external_body]
fn hasher_new() -> (h: lsx::sha256::BufSha256)
    ensures
        hasher_fed(h) == Seq::<u8>::empty(),
{
    lsx::sha256::BufSha256::new()
}

/// Relies on lsx::sha256::BufSha256::update: absorbs the given bytes after
/// everything absorbed before; any amount of data may be provided.
#[verifier::external_body]
fn hasher_update(h: &mut lsx::sha256::BufSha256, data: &[u8])
    ensures
        hasher_fed(*final(h)) == hasher_fed(*old(h)) + data@,
{
    h.update(data)
}

/// Relies on lsx::sha256::BufSha256::finish: produces the 32-byte digest of
/// everything absorbed, the same value the one-shot hash gives.
#[verifier::external_body]
fn hasher_finish(h: lsx::sha256::BufSha256) -> (r: Vec<u8>)
    ensures
        r@ == sha256_of(hasher_fed(h)),
        r@.len() == 32,
{
    h.finish(&[]).to_vec()
}

/// Relies on lsx::sha256::hash: the 32-byte digest of a byte string already
/// in memory.
#[verifier::external_body]
pub(crate) fn compute_sha256(data: &Vec<u8>) -> (r: Vec<u8>)
    ensures
        r@ == sha256_of(data@),
        r@.len() == 32,
{
    lsx::sha256::hash(data.as_slice()).to_vec()
}

/// The error of a file whose bytes did not match its declared size.
#[derive(Debug)]
pub struct SizeMismatch;

/// Streaming digest of one file, checked against the size its metadata
/// declared. The caller feeds chunks as it reads them; `finish` hands out a
/// digest only when exactly the declared number of bytes arrived.
pub struct FileHasher {
    hasher: lsx::sha256::BufSha256,
    declared: u64,
    read: u64,
    valid: bool,
}

impl FileHasher {
    /// All bytes fed so far.
    pub closed spec fn fed(self) -> Seq<u8> {
        hasher_fed(self.hasher)
    }

    /// The size the file's metadata declared.
    pub closed spec fn declared_size(self) -> u64 {
        self.declared
    }

    /// The running byte count, while it has not overflowed.
    pub closed spec fn bytes_read(self) -> u64 {
        self.read
    }

    /// Whether the running byte count still counts every byte fed.
    pub closed spec fn valid(self) -> bool {
        self.valid
    }

    /// The byte count matches the bytes fed whenever it is still valid.
    pub open spec fn wf(self) -> bool {
        self.valid() ==> self.bytes_read() == self.fed().len()
    }

    pub fn new(declared: u64) -> (h: FileHasher)
        ensures
            h.wf(),
            h.valid(),
            h.fed() == Seq::<u8>::empty(),
            h.declared_size() == declared,
            h.bytes_read() == 0,
    {
        FileHasher { hasher: hasher_new(), declared, read: 0, valid: true }
    }

    /// The read loop's bound: reading goes on while the byte count has not
    /// passed the declared size, so a file that grows mid-read may be read
    /// at most one chunk past its declared size before it is rejected.
    pub fn wants_more(&self) -> (r: bool)
        ensures
            r == (self.bytes_read() <= self.declared_size()),
    {
        self.read <= self.declared
    }

    /// Feed one chunk that was read from the file.
    pub fn absorb(&mut self, chunk: &[u8])
        requires
            old(self).wf(),
        ensures
            final(self).wf(),
            final(self).fed() == old(self).fed() + chunk@,
            final(self).declared_size() == old(self).declared_size(),
            final(self).valid() == (old(self).valid() && old(self).bytes_read() + chunk@.len()
                <= u64::MAX),
            final(self).valid() ==> final(self).bytes_read() == old(self).bytes_read()
                + chunk@.len(),
    {
        hasher_update(&mut self.hasher, chunk);
        let len_u64: u64 = chunk.len() as u64;
        if self.valid {
            if len_u64 <= u64::MAX - self.read {
                self.read = self.read + len_u64;
            } else {
                self.valid = false;
            }
        }
    }

    /// Require that exactly the declared number of bytes arrived, and hand
    /// out their digest; otherwise report the mismatch, and the file is
    /// dropped from all output.
    pub fn finish(self) -> (r: Result<Vec<u8>, SizeMismatch>)
        requires
            self.wf(),
        ensures
            r is Ok <==> (self.valid() && self.bytes_read() == self.declared_size()),
            r is Ok ==> r.unwrap()@ == sha256_of(self.fed()) && r.unwrap()@.len() == 32
                && self.fed().len() == self.declared_size(),
    {
        if self.valid && self.read == self.declared {
            Ok(hasher_finish(self.hasher))
        } else {
            Err(SizeMismatch)
        }
    }
}

/// The chunk size the read loop uses.
pub const CHUNK_LEN: usize = 32768;

/// Digest a byte string already in memory against its declared size, with
/// the same chunked loop a worker runs over a file: feed chunks while the
/// byte count has not passed the declared size, then require an exact
/// match. Succeeds exactly when the content is as long as declared, and
/// then yields the content's digest.
pub fn digest_of_sized(content: &Vec<u8>, declared: u64) -> (r: Result<Vec<u8>, SizeMismatch>)
    ensures
        r is Ok <==> content@.len() == declared,
        r is Ok ==> r.unwrap()@ == sha256_of(content@) && r.unwrap()@.len() == 32,
{
    let mut h = FileHasher::new(declared);
    let mut pos: usize = 0;
    proof {
        assert(content@.take(0int) =~= Seq::<u8>::empty());
    }
    while h.wants_more() && pos < content.len()
        invariant
            pos <= content@.len(),
            h.wf(),
            h.valid(),
            h.declared_size() == declared,
            h.bytes_read() == pos,
            h.fed() == content@.take(pos as int),
        decreases content@.len() - pos,
    {
        let end = if content.len() - pos < CHUNK_LEN {
            content.len()
        } else {
            pos + CHUNK_LEN
        };
        let chunk = crate::codec::copy_range(content, pos, end);
        h.absorb(chunk.as_slice());
        proof {
            assert(content@.take(pos as int) + content@.subrange(pos as int, end as int)
                =~= content@.take(end as int));
        }
        pos = end;
    }
    proof {
        if pos == content@.len() {
            assert(content@.take(pos as int) =~= content@);
        }
    }
    h.finish()
}

} // verus!
