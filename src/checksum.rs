use vstd::prelude::*;

verus! {

/// sha1_smol's streaming SHA-1 hasher, opaque here: what it holds is known
/// only through `sha1_input`.
#[verifier::external_type_specification]
#[verifier::external_body]
pub struct ExSha1(sha1_smol::Sha1);

/// The bytes that a SHA-1 hasher has been fed since it was made; sha1_smol
/// keeps their running state and count.
pub uninterp spec fn sha1_input(h: sha1_smol::Sha1) -> Seq<u8>;

/// The 20-byte SHA-1 digest of `data`.
pub uninterp spec fn sha1_of(data: Seq<u8>) -> Seq<u8>;

/// Relies on sha1_smol::Sha1::new: a hasher that has been fed nothing.
pub assume_specification[ sha1_smol::Sha1::new ]() -> (r: sha1_smol::Sha1)
    ensures
        sha1_input(r) == Seq::<u8>::empty(),
;

/// Relies on sha1_smol::Sha1::update: the bytes of `data` are fed after
/// those fed before. The hasher counts them in a `u64`, hence the bound.
pub assume_specification[ sha1_smol::Sha1::update ](h: &mut sha1_smol::Sha1, data: &[u8])
    requires
        sha1_input(*old(h)).len() + data@.len() <= u64::MAX,
    ensures
        sha1_input(*final(h)) == sha1_input(*old(h)) + data@,
;

/// Relies on sha1_smol::Sha1::digest and sha1_smol::Digest::bytes: the
/// digest of all bytes fed so far, which the hasher keeps. `digest` counts
/// those bytes in bits in a `u64`, hence the bound.
#[verifier::external_body]
fn sha1_bytes(h: &sha1_smol::Sha1) -> (r: [u8; 20])
    requires
        sha1_input(*h).len() * 8 <= u64::MAX,
    ensures
        r@ == sha1_of(sha1_input(*h)),
{
    h.digest().bytes()
}

/// Size and checksum of a blob, taken while its bytes stream through.
pub struct BlobDigest {
    hasher: sha1_smol::Sha1,
    size: u64,
}

/// Largest number of bytes whose digest is taken.
pub const MAX_STREAM_LEN: u64 = 0x1fff_ffff_ffff_ffff;

impl BlobDigest {
    /// The bytes fed so far.
    pub closed spec fn data(&self) -> Seq<u8> {
        sha1_input(self.hasher)
    }

    pub closed spec fn wf(&self) -> bool {
        self.size == sha1_input(self.hasher).len() && self.size <= MAX_STREAM_LEN
    }

    pub fn new() -> (r: BlobDigest)
        ensures
            r.wf(),
            r.data() == Seq::<u8>::empty(),
    {
        BlobDigest { hasher: sha1_smol::Sha1::new(), size: 0 }
    }

    /// Feeds the next bytes of the blob.
    pub fn update(&mut self, chunk: &[u8])
        requires
            old(self).wf(),
            old(self).data().len() + chunk@.len() <= MAX_STREAM_LEN,
        ensures
            final(self).wf(),
            final(self).data() == old(self).data() + chunk@,
    {
        self.hasher.update(chunk);
        self.size = self.size + chunk.len() as u64;
    }

    /// Number of bytes fed so far.
    pub fn size(&self) -> (r: u64)
        requires
            self.wf(),
        ensures
            r == self.data().len(),
    {
        self.size
    }

    /// SHA-1 digest of the bytes fed so far.
    pub fn checksum(&self) -> (r: [u8; 20])
        requires
            self.wf(),
        ensures
            r@ == sha1_of(self.data()),
    {
        sha1_bytes(&self.hasher)
    }
}

/// Takes the checksum of `data` by streaming it through a buffer of
/// `buf_size` bytes.
pub fn digest_chunked(data: &[u8], buf_size: usize) -> (r: [u8; 20])
    requires
        buf_size > 0,
        data@.len() <= MAX_STREAM_LEN,
    ensures
        r@ == sha1_of(data@),
{
    let mut d = BlobDigest::new();
    let mut pos: usize = 0;
    while pos < data.len()
        invariant
            pos <= data@.len(),
            data@.len() <= MAX_STREAM_LEN,
            buf_size > 0,
            d.wf(),
            d.data() == data@.subrange(0, pos as int),
        decreases data@.len() - pos,
    {
        let end: usize = if data.len() - pos < buf_size {
            data.len()
        } else {
            pos + buf_size
        };
        let chunk = vstd::slice::slice_subrange(data, pos, end);
        d.update(chunk);
        assert(data@.subrange(0, pos as int) + chunk@ =~= data@.subrange(0, end as int));
        pos = end;
    }
    assert(data@.subrange(0, data@.len() as int) =~= data@);
    d.checksum()
}

/// `data` cut into pieces of `n` bytes, the last one possibly shorter: the
/// reads of a buffer of `n` bytes.
pub open spec fn chunks_of(data: Seq<u8>, n: int) -> Seq<Seq<u8>>
    decreases data.len(),
{
    if data.len() == 0 {
        Seq::<Seq<u8>>::empty()
    } else if n <= 0 || data.len() <= n {
        seq![data]
    } else {
        seq![data.take(n)] + chunks_of(data.skip(n), n)
    }
}

proof fn lemma_chunks_rejoin(data: Seq<u8>, n: int)
    requires
        n > 0,
    ensures
        chunks_of(data, n).flatten() == data,
    decreases data.len(),
{
    if data.len() == 0 {
        assert(data =~= Seq::<u8>::empty());
    } else if data.len() <= n {
        let c = seq![data];
        assert(c.drop_first() =~= Seq::<Seq<u8>>::empty());
        assert(c.flatten() == c.first() + c.drop_first().flatten());
        assert(data + Seq::<u8>::empty() =~= data);
    } else {
        let rest = chunks_of(data.skip(n), n);
        let c = seq![data.take(n)] + rest;
        lemma_chunks_rejoin(data.skip(n), n);
        assert(c.drop_first() =~= rest);
        assert(c.first() == data.take(n));
        assert(c.flatten() == c.first() + c.drop_first().flatten());
        assert(data.take(n) + data.skip(n) =~= data);
    }
}

/// Streaming a blob through buffers of any two sizes gives one checksum:
/// the digest of the bytes fed is the digest of the blob itself.
pub proof fn lemma_digest_chunk_size_irrelevant(data: Seq<u8>, n1: int, n2: int)
    requires
        n1 > 0,
        n2 > 0,
        data.len() <= MAX_STREAM_LEN,
    ensures
        sha1_of(chunks_of(data, n1).flatten()) == sha1_of(data),
        sha1_of(chunks_of(data, n1).flatten()) == sha1_of(chunks_of(data, n2).flatten()),
{
    lemma_chunks_rejoin(data, n1);
    lemma_chunks_rejoin(data, n2);
}

} // verus!
