use snapshot_bitfield::bitfield::{Bitfield, ChunkHash, DecodeError, Manifest};
use snapshot_bitfield::completion::BitfieldCompletion;

fn h(tag: u8) -> ChunkHash {
    ChunkHash::new(vec![tag; 32])
}

#[test]
fn single_mark_sets_msb_first_bit() {
    let mut c = BitfieldCompletion::new(1);
    c.mark(1);
    assert_eq!(c.bytes(), vec![0x40u8]);
    assert_eq!(c.num_available(), 1);
    assert!(BitfieldCompletion::is_available(1, &c.bytes()));
    assert!(!BitfieldCompletion::is_available(0, &c.bytes()));
    assert!(!BitfieldCompletion::is_available(7, &c.bytes()));
}

#[test]
fn completion_mark_is_idempotent() {
    let mut c = BitfieldCompletion::new(2);
    c.mark(3);
    c.mark(3);
    assert_eq!(c.num_available(), 1);
    assert_eq!(c.bytes(), vec![0x10u8, 0x00u8]);
}

#[test]
fn index_map_and_single_mark() {
    let m = Manifest { block_hashes: vec![h(1), h(2)], state_hashes: vec![h(3)] };
    let mut b = Bitfield::new(&m);
    b.mark_one(&h(2));
    assert_eq!(b.num_available(), 1);
    assert!(b.is_available(&h(2)));
    assert!(!b.is_available(&h(1)));
    assert!(!b.is_available(&h(3)));
    assert_eq!(b.available_chunks(), vec![h(2)]);
    assert_eq!(b.needed_chunks(), vec![h(1), h(3)]);
    let raw = b.duplicate().into_rlp();
    assert_eq!(raw, vec![0xc2u8, 0xc1u8, 0x40u8]);
    let decoded = Bitfield::read_rlp(&m, &raw).unwrap();
    assert_eq!(decoded, vec![h(2)]);
}

#[test]
fn read_manifest_orders_and_sizes() {
    let m = Manifest { block_hashes: vec![h(1), h(2)], state_hashes: vec![h(3)] };
    let (hashes, length) = Bitfield::read_manifest(&m);
    assert_eq!(hashes, vec![h(1), h(2), h(3)]);
    assert_eq!(length, 1);

    let m9 = Manifest {
        block_hashes: vec![h(1), h(2), h(3), h(4), h(5)],
        state_hashes: vec![h(6), h(7), h(8), h(9)],
    };
    let (hashes9, length9) = Bitfield::read_manifest(&m9);
    assert_eq!(hashes9.len(), 9);
    assert_eq!(length9, 2);
}

#[test]
fn mark_some_yields_intersection() {
    let m = Manifest { block_hashes: vec![h(1), h(2), h(3)], state_hashes: vec![h(4)] };
    let mut b = Bitfield::new(&m);
    b.mark_some(&vec![h(2), h(9), h(4)]);
    assert_eq!(b.available_chunks(), vec![h(2), h(4)]);
    assert_eq!(b.needed_chunks(), vec![h(1), h(3)]);
    assert_eq!(b.num_available(), 2);
    assert!(!b.is_available(&h(9)));
}

#[test]
fn repeated_marks_do_not_double_count() {
    let m = Manifest { block_hashes: vec![h(1), h(2)], state_hashes: vec![h(3)] };
    let mut b = Bitfield::new(&m);
    b.mark_one(&h(2));
    let before = b.duplicate().into_rlp();
    let available_before = b.available_chunks();
    b.mark_one(&h(2));
    assert_eq!(b.num_available(), 1);
    assert_eq!(b.duplicate().into_rlp(), before);
    assert_eq!(b.available_chunks(), available_before);
    b.mark_some(&vec![h(2), h(3), h(3)]);
    assert_eq!(b.num_available(), 2);
    assert_eq!(b.available_chunks().len(), 2);
}

#[test]
fn unknown_hash_is_ignored() {
    let m = Manifest { block_hashes: vec![h(1)], state_hashes: vec![h(2)] };
    let mut b = Bitfield::new(&m);
    b.mark_one(&h(77));
    assert_eq!(b.num_available(), 0);
    assert!(!b.is_available(&h(77)));
    assert_eq!(b.needed_chunks(), vec![h(1), h(2)]);
}

#[test]
fn mark_all_five_chunks() {
    let m = Manifest { block_hashes: vec![h(1), h(2), h(3)], state_hashes: vec![h(4), h(5)] };
    let mut b = Bitfield::new(&m);
    b.mark_all();
    assert_eq!(b.num_available(), 5);
    assert_eq!(b.available_chunks(), vec![h(1), h(2), h(3), h(4), h(5)]);
    assert!(b.needed_chunks().is_empty());

    let mut c = BitfieldCompletion::new(1);
    for i in 0..5 {
        c.mark(i);
    }
    assert_eq!(c.bytes(), vec![0b1111_1000u8]);
    assert_eq!(c.num_available(), 5);
}

#[test]
fn encode_decode_round_trip() {
    let m = Manifest { block_hashes: vec![h(1), h(2)], state_hashes: vec![h(3), h(4), h(5)] };
    let mut b = Bitfield::new(&m);
    b.mark_some(&vec![h(1), h(4)]);
    let available = b.available_chunks();
    let raw = b.duplicate().into_rlp();
    let decoded = Bitfield::read_rlp(&m, &raw).unwrap();
    assert_eq!(decoded, available);
    assert_eq!(decoded, vec![h(1), h(4)]);
}

#[test]
fn nine_chunk_manifest_round_trips() {
    let m = Manifest {
        block_hashes: vec![h(1), h(2), h(3), h(4), h(5)],
        state_hashes: vec![h(6), h(7), h(8), h(9)],
    };
    let mut b = Bitfield::new(&m);
    b.mark_one(&h(9));
    assert_eq!(b.num_available(), 1);
    let raw = b.duplicate().into_rlp();
    let decoded = Bitfield::read_rlp(&m, &raw).unwrap();
    assert_eq!(decoded, vec![h(9)]);

    let mut c = BitfieldCompletion::new(2);
    c.mark(8);
    assert_eq!(c.bytes(), vec![0x00u8, 0x80u8]);
}

#[test]
fn wrong_length_payload_is_rejected() {
    let m3 = Manifest { block_hashes: vec![h(1), h(2)], state_hashes: vec![h(3)] };
    let m9 = Manifest {
        block_hashes: vec![h(1), h(2), h(3), h(4), h(5)],
        state_hashes: vec![h(6), h(7), h(8), h(9)],
    };
    let too_long = Bitfield::new(&m9).into_rlp();
    assert_eq!(Bitfield::read_rlp(&m3, &too_long), Err(DecodeError::LengthMismatch));
    let too_short = Bitfield::new(&m3).into_rlp();
    assert_eq!(Bitfield::read_rlp(&m9, &too_short), Err(DecodeError::LengthMismatch));
}

#[test]
fn malformed_payload_is_rejected() {
    let m = Manifest { block_hashes: vec![h(1), h(2)], state_hashes: vec![h(3)] };
    assert_eq!(Bitfield::read_rlp(&m, &[0x40u8]), Err(DecodeError::Malformed));
    assert_eq!(Bitfield::read_rlp(&m, &[]), Err(DecodeError::Malformed));
}

#[test]
fn empty_manifest_round_trips() {
    let m = Manifest { block_hashes: vec![], state_hashes: vec![] };
    let b = Bitfield::new(&m);
    assert_eq!(b.num_available(), 0);
    assert!(b.available_chunks().is_empty());
    assert!(b.needed_chunks().is_empty());
    let raw = b.duplicate().into_rlp();
    let decoded = Bitfield::read_rlp(&m, &raw).unwrap();
    assert!(decoded.is_empty());
}

#[test]
fn duplicate_preserves_state() {
    let m = Manifest { block_hashes: vec![h(1), h(2)], state_hashes: vec![h(3)] };
    let mut b = Bitfield::new(&m);
    b.mark_one(&h(3));
    let copy = b.duplicate();
    assert_eq!(copy.num_available(), 1);
    assert!(copy.is_available(&h(3)));
    assert_eq!(copy.available_chunks(), b.available_chunks());
    assert_eq!(copy.into_rlp(), b.duplicate().into_rlp());
}
