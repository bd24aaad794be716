use vstd::prelude::*;

verus! {

/// Why no snapshot artifact was produced.
#[derive(PartialEq, Eq, Structural, Clone, Copy, Debug)]
pub enum SnapshotError {
    /// The uncompressed snapshot does not fit the 32-bit size header.
    TooLarge,
    /// The compression step failed; nothing may be written.
    CompressionFailed,
}

/// Compresses a captured engine heap; each snapshot flavour supplies its own.
pub trait SnapshotCompressor {
    /// `out` is a compressed form of `raw`. A compressor may say this of
    /// itself; by default it says nothing.
    open spec fn compresses(&self, raw: Seq<u8>, out: Seq<u8>) -> bool {
        true
    }

    fn compress(&self, raw: &[u8]) -> (r: Result<Vec<u8>, anyhow::Error>)
        ensures
            r matches Ok(c) ==> self.compresses(raw@, c@),
    ;
}

/// The four little-endian bytes of `n`.
pub open spec fn le_bytes(n: u32) -> Seq<u8> {
    seq![
        (n & 0xff) as u8,
        ((n >> 8u32) & 0xff) as u8,
        ((n >> 16u32) & 0xff) as u8,
        ((n >> 24u32) & 0xff) as u8,
    ]
}

/// The number whose little-endian bytes are `b0` to `b3`.
pub open spec fn from_le(b0: u8, b1: u8, b2: u8, b3: u8) -> u32 {
    (b0 as u32) | ((b1 as u32) << 8u32) | ((b2 as u32) << 16u32) | ((b3 as u32) << 24u32)
}

/// A snapshot artifact: the uncompressed size as a 32-bit little-endian
/// header, then the compressed heap image.
pub open spec fn framed(raw_len: u32, compressed: Seq<u8>) -> Seq<u8> {
    le_bytes(raw_len) + compressed
}

/// Frames compressed snapshot bytes behind the uncompressed size `raw_len`;
/// fails when that size does not fit 32 bits.
pub fn frame_snapshot(raw_len: usize, compressed: &[u8]) -> (r: Result<Vec<u8>, SnapshotError>)
    ensures
        raw_len > u32::MAX ==> r == Err::<Vec<u8>, SnapshotError>(SnapshotError::TooLarge),
        raw_len <= u32::MAX ==> (r matches Ok(v) && v@ == framed(raw_len as u32, compressed@)),
{
    if raw_len > u32::MAX as usize {
        return Err(SnapshotError::TooLarge);
    }
    let n = raw_len as u32;
    let mut out: Vec<u8> = Vec::new();
    out.push((n & 0xff) as u8);
    out.push(((n >> 8u32) & 0xff) as u8);
    out.push(((n >> 16u32) & 0xff) as u8);
    out.push(((n >> 24u32) & 0xff) as u8);
    let mut i: usize = 0;
    while i < compressed.len()
        invariant
            0 <= i <= compressed@.len(),
            out@ == le_bytes(n) + compressed@.take(i as int),
        decreases compressed@.len() - i,
    {
        out.push(compressed[i]);
        proof {
            assert(out@ =~= le_bytes(n) + compressed@.take(i + 1));
        }
        i = i + 1;
    }
    proof {
        assert(compressed@.take(i as int) =~= compressed@);
    }
    Ok(out)
}

/// The artifact to persist for a captured heap `raw`, compressed by
/// `compressor`. A failed compression yields no bytes at all.
pub fn create_snapshot_artifact(raw: &[u8], compressor: &dyn SnapshotCompressor) -> (r: Result<
    Vec<u8>,
    SnapshotError,
>)
    ensures
        raw@.len() > u32::MAX ==> r == Err::<Vec<u8>, SnapshotError>(SnapshotError::TooLarge),
        raw@.len() <= u32::MAX ==> (r is Ok || r == Err::<Vec<u8>, SnapshotError>(
            SnapshotError::CompressionFailed,
        )),
        r matches Ok(v) ==> raw@.len() <= u32::MAX && (exists|c: Seq<u8>|
            #[trigger] compressor.compresses(raw@, c) && v@ == framed(raw@.len() as u32, c)),
{
    if raw.len() > u32::MAX as usize {
        return Err(SnapshotError::TooLarge);
    }
    match compressor.compress(raw) {
        Ok(compressed) => {
            let r = frame_snapshot(raw.len(), compressed.as_slice());
            proof {
                assert(compressor.compresses(raw@, compressed@));
            }
            r
        },
        Err(_) => Err(SnapshotError::CompressionFailed),
    }
}

/// Splits an artifact into its uncompressed size and the compressed image;
/// `None` when it is too short to hold the header.
pub fn split_snapshot(artifact: &[u8]) -> (r: Option<(u32, Vec<u8>)>)
    ensures
        artifact@.len() < 4 <==> r is None,
        r matches Some((n, rest)) ==> n == from_le(artifact@[0], artifact@[1], artifact@[2], artifact@[3])
            && rest@ == artifact@.subrange(4, artifact@.len() as int),
{
    if artifact.len() < 4 {
        return None;
    }
    let n = (artifact[0] as u32) | ((artifact[1] as u32) << 8u32) | ((artifact[2] as u32) << 16u32)
        | ((artifact[3] as u32) << 24u32);
    let mut rest: Vec<u8> = Vec::new();
    let mut i: usize = 4;
    while i < artifact.len()
        invariant
            4 <= i <= artifact@.len(),
            rest@ == artifact@.subrange(4, i as int),
        decreases artifact@.len() - i,
    {
        rest.push(artifact[i]);
        proof {
            assert(rest@ =~= artifact@.subrange(4, i + 1));
        }
        i = i + 1;
    }
    Some((n, rest))
}

/// Reading an artifact back gives the size and the compressed image that
/// framed it.
pub proof fn lemma_snapshot_round_trip(raw_len: u32, compressed: Seq<u8>)
    ensures
        framed(raw_len, compressed).len() >= 4,
        from_le(
            framed(raw_len, compressed)[0],
            framed(raw_len, compressed)[1],
            framed(raw_len, compressed)[2],
            framed(raw_len, compressed)[3],
        ) == raw_len,
        framed(raw_len, compressed).subrange(4, framed(raw_len, compressed).len() as int)
            == compressed,
{
    let f = framed(raw_len, compressed);
    assert(f[0] == (raw_len & 0xff) as u8);
    assert(f[1] == ((raw_len >> 8u32) & 0xff) as u8);
    assert(f[2] == ((raw_len >> 16u32) & 0xff) as u8);
    assert(f[3] == ((raw_len >> 24u32) & 0xff) as u8);
    assert(((((raw_len & 0xff) as u8) as u32) | ((((raw_len >> 8u32) & 0xff) as u8) as u32)
        << 8u32) | ((((raw_len >> 16u32) & 0xff) as u8) as u32) << 16u32 | ((((raw_len >> 24u32)
        & 0xff) as u8) as u32) << 24u32 == raw_len) by (bit_vector);
    assert(f.subrange(4, f.len() as int) =~= compressed);
}

} // verus!
