use sokoban_utils::bitplane::BitPlane;
use sokoban_utils::rle::{decode_run, encode_run};

#[test]
fn round_trip_set_get() {
    let mut bp = BitPlane::new(8, 4);
    bp.set(0, 0);
    bp.set(3, 1);
    bp.set(7, 3);
    assert!(bp.get(0, 0));
    assert!(bp.get(3, 1));
    assert!(bp.get(7, 3));
    assert!(!bp.get(1, 0));
}

#[test]
fn rle_round_trip() {
    let mut bp = BitPlane::new(7, 7);
    bp.set(0, 0);
    bp.set(2, 3);
    bp.set(6, 6);
    let enc = bp.rle_encode();
    let dec = BitPlane::rle_decode(7, 7, &enc).unwrap();
    assert_eq!(bp, dec);
}

#[test]
fn bits_are_stored_high_bit_first() {
    let mut bp = BitPlane::new(5, 3);
    bp.set(0, 0);
    assert_eq!(bp.as_bytes(), &[0x80, 0x00]);
    bp.set(4, 1);
    assert_eq!(bp.as_bytes(), &[0x80, 0x40]);
    bp.set(4, 2);
    assert_eq!(bp.as_bytes(), &[0x80, 0x42]);
    bp.clear(0, 0);
    assert_eq!(bp.as_bytes(), &[0x00, 0x42]);
    assert_eq!(bp.len(), 15);
    assert!(bp.get_flat(9));
    assert!(!bp.get_flat(8));
}

#[test]
fn clearing_a_clear_cell_changes_nothing() {
    let mut bp = BitPlane::new(3, 3);
    bp.set(1, 1);
    bp.clear(2, 2);
    assert_eq!(bp.as_bytes(), &[0x08, 0x00]);
    bp.set(1, 1);
    assert_eq!(bp.as_bytes(), &[0x08, 0x00]);
}

#[test]
fn set_cells_come_in_row_major_order() {
    let mut bp = BitPlane::new(4, 3);
    bp.set(3, 2);
    bp.set(0, 1);
    bp.set(2, 0);
    assert_eq!(bp.iter_set_bits(), vec![(2, 0), (0, 1), (3, 2)]);
    assert!(BitPlane::new(4, 3).iter_set_bits().is_empty());
}

#[test]
fn a_plane_needs_bytes_enough() {
    assert!(BitPlane::from_bytes(3, 3, &[0xff]).is_none());
    let bp = BitPlane::from_bytes(3, 3, &[0xff, 0x80, 0x77]).unwrap();
    assert_eq!(bp.iter_set_bits().len(), 9);
    assert_eq!(bp.as_bytes(), &[0xff, 0x80]);
    assert_eq!(BitPlane::from_bytes(0, 7, &[]).unwrap().len(), 0);
}

#[test]
fn runs_are_encoded_in_whole_bytes() {
    // No clear cell, one set cell, 19 clear cells: 0, 1, 15 + 4.
    let mut bp = BitPlane::new(5, 4);
    bp.set(0, 0);
    assert_eq!(bp.rle_encode(), vec![0x00, 0x10, 0xf4]);
    // A run of 15 takes a nibble for what is left over: nothing.
    assert_eq!(BitPlane::new(5, 3).rle_encode(), vec![0xf0]);
    // A run of 30 takes three nibbles.
    assert_eq!(BitPlane::new(6, 5).rle_encode(), vec![0xff, 0x00]);
    assert_eq!(BitPlane::new(0, 0).rle_encode(), vec![0x00]);
}

#[test]
fn runs_are_decoded_from_whole_bytes() {
    let bp = BitPlane::rle_decode(5, 4, &[0x00, 0x10, 0xf4]).unwrap();
    assert_eq!(bp.iter_set_bits(), vec![(0, 0)]);
    // What is past the last cell does not count.
    let bp = BitPlane::rle_decode(2, 2, &[0x30, 0x90]).unwrap();
    assert_eq!(bp.iter_set_bits(), vec![(1, 1)]);
}

#[test]
fn every_plane_of_a_small_grid_survives_its_runs() {
    for bits in 0u32..4096 {
        let mut bp = BitPlane::new(4, 3);
        for i in 0..12u8 {
            if bits >> i & 1 == 1 {
                bp.set(i % 4, i / 4);
            }
        }
        assert_eq!(BitPlane::rle_decode(4, 3, &bp.rle_encode()).unwrap(), bp);
    }
}

#[test]
fn a_large_plane_survives_its_runs() {
    let mut bp = BitPlane::new(255, 255);
    bp.set(254, 254);
    bp.set(17, 200);
    assert_eq!(BitPlane::rle_decode(255, 255, &bp.rle_encode()).unwrap(), bp);
}

#[test]
fn a_run_is_read_back_to_the_nibble() {
    for run in (0..400).chain([65025, 1_000_000]) {
        let mut out = vec![];
        encode_run(&mut out, run);
        assert_eq!(decode_run(&out, 0), Some((run, (run / 15 + 1) as usize)));
        out.push(0x7f);
        assert_eq!(decode_run(&out, 0), Some((run, (run / 15 + 1) as usize)));
    }
    let mut out = vec![0x12];
    encode_run(&mut out, 17);
    assert_eq!(out, vec![0x12, 0xf2]);
    assert_eq!(decode_run(&out, 0), Some((1, 1)));
    assert_eq!(decode_run(&out, 1), Some((2, 2)));
    assert_eq!(decode_run(&out, 2), Some((17, 4)));
    assert_eq!(decode_run(&out, 3), Some((2, 4)));
    // A run that the data cut short ends with them.
    assert_eq!(decode_run(&[0xff], 0), Some((30, 2)));
    assert_eq!(decode_run(&[0xff], 2), Some((0, 2)));
    assert_eq!(decode_run(&[], 0), Some((0, 0)));
}
