use bitvec::order::Msb0;
use bitvec::view::BitView;
use framesync::comparators::{
    Exact16Comparator, Exact32Comparator, PopCount16Comparator, TwosComplement16Comparator,
};
use framesync::detectors::cortexm4;
use framesync::detectors::{
    Detector, Double16Detector, Double32Detector, Single16Detector, Single32Detector,
};

/// `length` blocks of `block_len` zero bytes with `width` one bits from bit `position` on.
fn haystack_bytes(length: usize, block_len: usize, position: usize, width: usize) -> Vec<u8> {
    let mut bytes = vec![0u8; length * block_len];
    {
        let bits = bytes.view_bits_mut::<Msb0>();
        for i in 0..width {
            bits.set(position + i, true);
        }
    }
    bytes
}

/// The blocks of `bytes`, read by the detector.
fn blocks<D: Detector<T>, T>(bytes: &[u8], block_len: usize) -> Vec<D::Block> {
    bytes.chunks(block_len).map(|chunk| D::from_slice(chunk)).collect()
}

#[test]
fn single16_position() {
    let detector = Single16Detector::<Exact16Comparator<0xFFFF>>::new();

    for length in 1..10 {
        let bits = length * 2 * 8;
        for position in 0..bits - 16 {
            let bytes = haystack_bytes(length, 2, position, 16);
            let haystack = blocks::<Single16Detector<Exact16Comparator<0xFFFF>>, u16>(&bytes, 2);

            let found = detector.position_in_blocks(&haystack);

            println!("Found {:?} in {:?}", found, haystack);

            assert_eq!(Some(position), found);
        }
    }
}

#[test]
fn single16_no_match_in_last_possible_position() {
    let detector = Single16Detector::<Exact16Comparator<0xFFFF>>::new();

    for length in 1..10 {
        let bits = length * 2 * 8;
        let position = bits - 16;
        let bytes = haystack_bytes(length, 2, position, 16);
        let haystack = blocks::<Single16Detector<Exact16Comparator<0xFFFF>>, u16>(&bytes, 2);

        let found = detector.position_in_blocks(&haystack);

        assert_eq!(None, found);
    }
}

#[test]
fn single32_position() {
    let detector = Single32Detector::<Exact32Comparator<0xFFFFFFFF>>::new();

    for length in 1..10 {
        let bits = length * 4 * 8;
        for position in 0..bits - 32 {
            let bytes = haystack_bytes(length, 4, position, 32);
            let haystack = blocks::<Single32Detector<Exact32Comparator<0xFFFFFFFF>>, u32>(&bytes, 4);

            let found = detector.position_in_blocks(&haystack);

            println!("Found {:?} in {:?}", found, haystack);

            assert_eq!(Some(position), found);
        }
    }
}

#[test]
fn single32_no_match_in_last_possible_position() {
    let detector = Single32Detector::<Exact32Comparator<0xFFFFFFFF>>::new();

    for length in 1..10 {
        let bits = length * 4 * 8;
        let position = bits - 32;
        let bytes = haystack_bytes(length, 4, position, 32);
        let haystack = blocks::<Single32Detector<Exact32Comparator<0xFFFFFFFF>>, u32>(&bytes, 4);

        let found = detector.position_in_blocks(&haystack);

        assert_eq!(None, found);
    }
}

#[test]
fn double16_position() {
    let detector = Double16Detector::<Exact16Comparator<0xFFFF>>::new();

    for length in 1..10 {
        let bits = length * 4 * 8;
        for position in 0..bits - 16 {
            let bytes = haystack_bytes(length, 4, position, 16);
            let haystack = blocks::<Double16Detector<Exact16Comparator<0xFFFF>>, u16>(&bytes, 4);

            let found = detector.position_in_blocks(&haystack);

            println!("Found {:?} in {:?}", found, haystack);

            assert_eq!(Some(position), found);
        }
    }
}

#[test]
fn double16_no_match_in_last_possible_position() {
    let detector = Double16Detector::<Exact16Comparator<0xFFFF>>::new();

    for length in 1..10 {
        let bits = length * 4 * 8;
        let position = bits - 16;
        let bytes = haystack_bytes(length, 4, position, 16);
        let haystack = blocks::<Double16Detector<Exact16Comparator<0xFFFF>>, u16>(&bytes, 4);

        let found = detector.position_in_blocks(&haystack);

        assert_eq!(None, found);
    }
}

#[test]
fn double32_position() {
    let detector = Double32Detector::<Exact32Comparator<0xFFFFFFFF>>::new();

    for length in 1..10 {
        let bits = length * 8 * 8;
        for position in 0..bits - 32 {
            let bytes = haystack_bytes(length, 8, position, 32);
            let haystack = blocks::<Double32Detector<Exact32Comparator<0xFFFFFFFF>>, u32>(&bytes, 8);

            let found = detector.position_in_blocks(&haystack);

            println!("Found {:?} in {:?}", found, haystack);

            assert_eq!(Some(position), found);
        }
    }
}

#[test]
fn double32_no_match_in_last_possible_position() {
    let detector = Double32Detector::<Exact32Comparator<0xFFFFFFFF>>::new();

    for length in 1..10 {
        let bits = length * 8 * 8;
        let position = bits - 32;
        let bytes = haystack_bytes(length, 8, position, 32);
        let haystack = blocks::<Double32Detector<Exact32Comparator<0xFFFFFFFF>>, u32>(&bytes, 8);

        let found = detector.position_in_blocks(&haystack);

        assert_eq!(None, found);
    }
}

#[test]
fn end_to_end_single16_exact() {
    let detector = Single16Detector::<Exact16Comparator<0xFFFF>>::new();
    // The syncword in the second and last block sits at the terminal
    // position, which a single detector leaves for the next block.
    let two = blocks::<Single16Detector<Exact16Comparator<0xFFFF>>, u16>(&[0x00, 0x00, 0xFF, 0xFF], 2);
    assert_eq!(vec![0x0000, 0xFFFF], two);
    assert_eq!(None, detector.position_in_blocks(&two));
    // One more block makes it a tested position.
    let three = blocks::<Single16Detector<Exact16Comparator<0xFFFF>>, u16>(
        &[0x00, 0x00, 0xFF, 0xFF, 0x00, 0x00],
        2,
    );
    assert_eq!(Some(16), detector.position_in_blocks(&three));
}

#[test]
fn empty_haystack_has_no_match() {
    assert_eq!(None, Single16Detector::<Exact16Comparator<0>>::new().position_in_blocks(&[]));
    assert_eq!(None, Single32Detector::<Exact32Comparator<0>>::new().position_in_blocks(&[]));
    assert_eq!(None, Double16Detector::<Exact16Comparator<0>>::new().position_in_blocks(&[]));
    assert_eq!(None, Double32Detector::<Exact32Comparator<0>>::new().position_in_blocks(&[]));
}

#[test]
fn double_detector_reports_smallest_position() {
    // Fifteen ones from bit 17: tolerant matches at 16 and 17, in the second
    // half of the first block. Ones from bit 2 on add one at bit 1, in the
    // first half, which is reported though it is found after bit 16.
    let detector = Double16Detector::<PopCount16Comparator<0xFFFF, 1>>::new();
    let mut bytes = haystack_bytes(2, 4, 17, 15);
    assert_eq!(Some(16), detector.position_in_blocks(&blocks::<Double16Detector<PopCount16Comparator<0xFFFF, 1>>, u16>(&bytes, 4)));
    {
        let bits = bytes.view_bits_mut::<Msb0>();
        for i in 2..17 {
            bits.set(i, true);
        }
    }
    assert_eq!(Some(1), detector.position_in_blocks(&blocks::<Double16Detector<PopCount16Comparator<0xFFFF, 1>>, u16>(&bytes, 4)));
}

#[test]
fn blocks_are_read_big_endian() {
    assert_eq!(0x1234, Single16Detector::<Exact16Comparator<0>>::from_slice(&[0x12, 0x34]));
    assert_eq!(
        0x1234_5678,
        Single32Detector::<Exact32Comparator<0>>::from_slice(&[0x12, 0x34, 0x56, 0x78])
    );
    assert_eq!(
        0x0102_0304_0506_0708,
        Double32Detector::<Exact32Comparator<0>>::from_slice(&[1, 2, 3, 4, 5, 6, 7, 8])
    );
    let mut out = Vec::new();
    Double32Detector::<Exact32Comparator<0>>::append_bytes(0x0102_0304_0506_0708, &mut out);
    Double16Detector::<Exact16Comparator<0>>::append_bytes(0xA1B2_C3D4, &mut out);
    assert_eq!(vec![1, 2, 3, 4, 5, 6, 7, 8, 0xA1, 0xB2, 0xC3, 0xD4], out);
}

#[test]
fn presets_use_the_tuned_comparators() {
    let haystack = blocks::<Single16Detector<TwosComplement16Comparator<0xFFFF, 1>>, u16>(
        &[0x00, 0xF7, 0xFF, 0x00, 0x00, 0x00],
        2,
    );
    // 0xF7FF at bit 8 has one error, 0x7BFF at bit 7 two.
    assert_eq!(None, cortexm4::sync16_tol0::<0xFFFF>().position_in_blocks(&haystack));
    assert_eq!(Some(8), cortexm4::sync16_tol1::<0xFFFF>().position_in_blocks(&haystack));
    assert_eq!(Some(7), cortexm4::sync16_tol2::<0xFFFF>().position_in_blocks(&haystack));

    let haystack32 = blocks::<Single32Detector<Exact32Comparator<0>>, u32>(
        &[0x00, 0x00, 0xF0, 0xF0, 0xF0, 0xF0, 0x00, 0x00],
        4,
    );
    // 0xF0F0F0F0 at bit 16 differs from 0xFFFFFFFF in 16 bits.
    assert_eq!(None, cortexm4::sync32_tol6::<0xFFFFFFFF>().position_in_blocks(&haystack32));
    assert_eq!(Some(16), cortexm4::sync32_tol0::<0xF0F0F0F0>().position_in_blocks(&haystack32));
    assert_eq!(Some(16), cortexm4::sync32_tol1::<0xF0F0F0F1>().position_in_blocks(&haystack32));
}
