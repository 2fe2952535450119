use ddh::fileinfo::HashMode;
use ddh::hashing::{ContentHasher, HashProgress, ReadOutcome};
use siphasher::sip128::{Hasher128, SipHasher};
use std::hash::Hasher;

fn reference(bytes: &[u8]) -> u128 {
    let mut h = SipHasher::new();
    h.write(bytes);
    h.finish128().into()
}

#[test]
fn full_hash_of_pieces_is_hash_of_whole() {
    let mut h = ContentHasher::new(HashMode::Full);
    assert_eq!(h.step(ReadOutcome::Bytes(b"hello ".to_vec())), HashProgress::ReadMore);
    assert_eq!(h.step(ReadOutcome::Bytes(b"world".to_vec())), HashProgress::ReadMore);
    let done = h.step(ReadOutcome::End);
    assert_eq!(done, HashProgress::Finished(Some(reference(b"hello world"))));
    assert_ne!(done, HashProgress::Finished(Some(reference(b"hello "))));
}

#[test]
fn partial_hash_of_short_file_is_hash_of_whole() {
    let mut h = ContentHasher::new(HashMode::Partial);
    assert_eq!(h.step(ReadOutcome::Bytes(b"abc".to_vec())), HashProgress::ReadMore);
    assert_eq!(h.step(ReadOutcome::End), HashProgress::Finished(Some(reference(b"abc"))));
}

#[test]
fn partial_hash_covers_exactly_the_leading_block() {
    let content: Vec<u8> = (0..10_000u32).map(|i| (i % 251) as u8).collect();
    // Cut into reads that do not line up with the block.
    let mut h = ContentHasher::new(HashMode::Partial);
    assert_eq!(h.step(ReadOutcome::Bytes(content[..3000].to_vec())), HashProgress::ReadMore);
    let done = h.step(ReadOutcome::Bytes(content[3000..6000].to_vec()));
    assert_eq!(done, HashProgress::Finished(Some(reference(&content[..4096]))));
    // One read larger than the block.
    let mut g = ContentHasher::new(HashMode::Partial);
    let done = g.step(ReadOutcome::Bytes(content.clone()));
    assert_eq!(done, HashProgress::Finished(Some(reference(&content[..4096]))));
    // One read of exactly the block.
    let mut k = ContentHasher::new(HashMode::Partial);
    let done = k.step(ReadOutcome::Bytes(content[..4096].to_vec()));
    assert_eq!(done, HashProgress::Finished(Some(reference(&content[..4096]))));
}

#[test]
fn empty_file_hashes_to_hash_of_nothing() {
    let mut h = ContentHasher::new(HashMode::Partial);
    assert_eq!(h.step(ReadOutcome::End), HashProgress::Finished(Some(reference(b""))));
    let mut g = ContentHasher::new(HashMode::Full);
    assert_eq!(g.step(ReadOutcome::Bytes(Vec::new())), HashProgress::Finished(Some(reference(b""))));
}

#[test]
fn failed_read_gives_no_hash() {
    let mut h = ContentHasher::new(HashMode::Full);
    assert_eq!(h.step(ReadOutcome::Bytes(vec![1, 2, 3])), HashProgress::ReadMore);
    assert_eq!(h.step(ReadOutcome::Failed), HashProgress::Finished(None));
    let mut g = ContentHasher::new(HashMode::Partial);
    assert_eq!(g.step(ReadOutcome::Failed), HashProgress::Finished(None));
}

#[test]
fn different_content_gives_different_hash() {
    let mut a = ContentHasher::new(HashMode::Partial);
    let mut b = ContentHasher::new(HashMode::Partial);
    let ha = a.step(ReadOutcome::Bytes(vec![0u8; 4096]));
    let hb = b.step(ReadOutcome::Bytes(vec![1u8; 4096]));
    assert!(matches!(ha, HashProgress::Finished(Some(_))));
    assert_ne!(ha, hb);
}
