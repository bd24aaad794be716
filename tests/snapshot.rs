use deno_ext::{
    create_snapshot_artifact, frame_snapshot, split_snapshot, SnapshotCompressor, SnapshotError,
};

struct Reverse;

impl SnapshotCompressor for Reverse {
    fn compress(&self, raw: &[u8]) -> Result<Vec<u8>, anyhow::Error> {
        Ok(raw.iter().rev().copied().collect())
    }
}

struct Broken;

impl SnapshotCompressor for Broken {
    fn compress(&self, _raw: &[u8]) -> Result<Vec<u8>, anyhow::Error> {
        Err(anyhow::Error::msg("snapshot compression failed"))
    }
}

#[test]
fn frame_puts_little_endian_size_first() {
    let framed = frame_snapshot(0x0102_0304, &[9, 8]).unwrap();
    assert_eq!(framed, vec![4, 3, 2, 1, 9, 8]);
    assert_eq!(frame_snapshot(0, &[]).unwrap(), vec![0, 0, 0, 0]);
    assert_eq!(frame_snapshot(u32::MAX as usize, &[]).unwrap(), vec![255, 255, 255, 255]);
}

#[test]
fn frame_rejects_oversized_snapshot() {
    assert_eq!(frame_snapshot(u32::MAX as usize + 1, &[1]), Err(SnapshotError::TooLarge));
}

#[test]
fn split_reads_back_frame() {
    let framed = frame_snapshot(70000, &[1, 2, 3]).unwrap();
    assert_eq!(split_snapshot(&framed), Some((70000, vec![1, 2, 3])));
    assert_eq!(split_snapshot(&[1, 0, 0, 0]), Some((1, vec![])));
    assert_eq!(split_snapshot(&[1, 2, 3]), None);
}

#[test]
fn artifact_holds_compressed_heap() {
    let artifact = create_snapshot_artifact(&[1, 2, 3], &Reverse).unwrap();
    assert_eq!(artifact, vec![3, 0, 0, 0, 3, 2, 1]);
}

#[test]
fn failed_compression_yields_no_artifact() {
    assert_eq!(create_snapshot_artifact(&[1, 2, 3], &Broken), Err(SnapshotError::CompressionFailed));
}
