//! Sampled content hashes: which parts of a file are read, and the hexadecimal
//! SHA-256 digest of what was read.
use vstd::prelude::*;
use crate::text::{hex_lower, to_hex_lower};

verus! {

/// What `sha2::Sha256::digest` returns for `data`: its SHA-256 digest.
pub uninterp spec fn spec_sha256(data: Seq<u8>) -> Seq<u8>;

/// `sha2::Sha256::digest`: the SHA-256 digest of `data`, which is 32 bytes long.
#[verifier::external_body]
fn sha256_digest(data: &[u8]) -> (r: Vec<u8>)
    ensures
        r@ == spec_sha256(data@),
        r@.len() == 32,
{
    <sha2::Sha256 as sha2::Digest>::digest(data).to_vec()
}

/// The parts of a file that a sampled hash reads: `len` bytes at each offset.
pub struct SamplePlan {
    pub len: u64,
    pub offsets: Vec<u64>,
}

/// How many bytes each sample reads: the configured sample size, but at most a
/// third of the file.
pub open spec fn sample_len(file_size: u64, sample_size: u64) -> u64 {
    if sample_size <= file_size / 3 {
        sample_size
    } else {
        file_size / 3
    }
}

/// Where the samples start: nothing when samples are empty; else the start of the
/// file, its middle when the file is longer than two samples, and its last
/// `len` bytes when it is longer than one sample.
pub open spec fn sample_offsets(file_size: u64, len: u64) -> Seq<u64> {
    if len == 0 {
        Seq::empty()
    } else {
        let head = seq![0u64];
        let mid = if file_size > 2 * len {
            seq![file_size / 2]
        } else {
            Seq::empty()
        };
        let tail = if file_size > len {
            seq![(file_size - len) as u64]
        } else {
            Seq::empty()
        };
        head + mid + tail
    }
}

/// The samples to read from a file of `file_size` bytes.
pub fn sample_plan(file_size: u64, sample_size: u64) -> (plan: SamplePlan)
    ensures
        plan.len == sample_len(file_size, sample_size),
        plan.offsets@ == sample_offsets(file_size, plan.len),
        forall|i: int| 0 <= i < plan.offsets@.len() ==> #[trigger] plan.offsets@[i] + plan.len <= file_size,
{
    let len = if sample_size <= file_size / 3 {
        sample_size
    } else {
        file_size / 3
    };
    let mut offsets: Vec<u64> = Vec::new();
    if len > 0 {
        offsets.push(0);
        assert(len <= file_size / 3);
        if file_size > len * 2 {
            offsets.push(file_size / 2);
        }
        if file_size > len {
            offsets.push(file_size - len);
        }
        assert(offsets@ =~= sample_offsets(file_size, len));
    } else {
        assert(offsets@ =~= sample_offsets(file_size, len));
    }
    SamplePlan { len, offsets }
}

/// The bytes of all chunks, one after another.
pub open spec fn concat_chunks(chunks: Seq<Seq<u8>>) -> Seq<u8>
    decreases chunks.len(),
{
    if chunks.len() == 0 {
        Seq::empty()
    } else {
        concat_chunks(chunks.drop_last()) + chunks.last()
    }
}

/// The views of byte chunks.
pub open spec fn chunks_view(chunks: Seq<Vec<u8>>) -> Seq<Seq<u8>> {
    chunks.map_values(|c: Vec<u8>| c@)
}

/// The sampled hash of a file from the bytes read at the planned offsets: empty
/// when the samples are empty, else the lower-case hexadecimal SHA-256 digest of
/// all the samples, in order.
pub open spec fn sample_hash_text(len: u64, chunks: Seq<Seq<u8>>) -> Seq<char> {
    if len == 0 {
        Seq::empty()
    } else {
        hex_lower(spec_sha256(concat_chunks(chunks)))
    }
}

/// The sampled hash of a file from the bytes read at the planned offsets.
pub fn sample_hash(len: u64, chunks: &Vec<Vec<u8>>) -> (r: String)
    ensures
        r@ == sample_hash_text(len, chunks_view(chunks@)),
        len > 0 ==> r@.len() == 64,
{
    if len == 0 {
        return String::new();
    }
    let ghost cv = chunks_view(chunks@);
    let mut data: Vec<u8> = Vec::new();
    let n = chunks.len();
    for i in 0..n
        invariant
            n == chunks@.len(),
            cv == chunks_view(chunks@),
            data@ == concat_chunks(cv.take(i as int)),
    {
        let ghost before = data@;
        data.extend_from_slice(chunks[i].as_slice());
        assert(cv.take(i + 1).drop_last() =~= cv.take(i as int));
        assert(data@ =~= before + chunks@[i as int]@);
    }
    assert(cv.take(n as int) =~= cv);
    let digest = sha256_digest(data.as_slice());
    let r = to_hex_lower(digest.as_slice());
    proof {
        lemma_hex_len(digest@);
    }
    r
}

/// The hexadecimal text of `n` bytes has `2 * n` characters.
pub proof fn lemma_hex_len(bytes: Seq<u8>)
    ensures
        hex_lower(bytes).len() == 2 * bytes.len(),
    decreases bytes.len(),
{
    if bytes.len() > 0 {
        lemma_hex_len(bytes.drop_last());
    }
}

proof fn lemma_concat_is_flatten(chunks: Seq<Seq<u8>>)
    ensures
        concat_chunks(chunks) == chunks.flatten(),
    decreases chunks.len(),
{
    if chunks.len() > 0 {
        lemma_concat_is_flatten(chunks.drop_last());
        chunks.drop_last().lemma_flatten_push(chunks.last());
        assert(chunks.drop_last().push(chunks.last()) =~= chunks);
    }
}

/// The sampled hash covers every sample: for non-empty samples it is the
/// lower-case hexadecimal SHA-256 digest of all the sampled bytes, every sample in
/// order, the last one included.
pub proof fn lemma_sample_hash_covers_every_sample(len: u64, chunks: Seq<Seq<u8>>)
    requires
        len > 0,
    ensures
        sample_hash_text(len, chunks) == hex_lower(spec_sha256(chunks.flatten())),
{
    lemma_concat_is_flatten(chunks);
}

/// The sampled hash depends only on the sampled bytes in order, not on how they
/// are split into samples: adding bytes to the last sample or as a new sample
/// gives the same hash.
pub proof fn lemma_sample_hash_ignores_splitting(len: u64, a: Seq<Seq<u8>>, b: Seq<Seq<u8>>)
    requires
        a.flatten() == b.flatten(),
    ensures
        sample_hash_text(len, a) == sample_hash_text(len, b),
{
    lemma_concat_is_flatten(a);
    lemma_concat_is_flatten(b);
}

} // verus!
