use std::cmp::min;

use bitvec::order::Msb0;
use bitvec::view::BitView;
use framesync::comparators::{Exact16Comparator, Exact32Comparator};
use framesync::detectors::{cortexm4, Double16Detector, Single32Detector};
use framesync::{BitStream, FrameBuffer, SyncWindow};

type Window = SyncWindow<Single32Detector<Exact32Comparator<0xFFFFFFFF>>, u32>;

struct FrameReception {
    buffer: Vec<u8>,
    shifts: u8,
    frame_len: Option<usize>,
}

#[test]
fn detect_0_shifts_pos0() {
    let mut bs = SyncWindow::new(cortexm4::sync32_tol0::<0xFFFFFFFF>());
    let rx = &[0xff, 0xff, 0xff, 0xff, 0x00, 0x00, 0x00, 0x00];
    bs.extend(rx);

    let mut iter = bs.detect().into_iter();
    assert_eq!(Some((0, vec![0xff, 0xff, 0xff, 0xff, 0x00, 0x00, 0x00, 0x00])), iter.next());
    assert_eq!(None, iter.next());
}

#[test]
fn detect_0_shifts_pos1() {
    let mut bs = SyncWindow::new(cortexm4::sync32_tol0::<0xFFFFFFFF>());
    let rx = &[0x00, 0xff, 0xff, 0xff, 0xff, 0x00, 0x00, 0x00];
    bs.extend(rx);

    let mut iter = bs.detect().into_iter();
    assert_eq!(Some((0, vec![0xff, 0xff, 0xff, 0xff, 0x00, 0x00, 0x00])), iter.next());
    assert_eq!(None, iter.next());
}

#[test]
fn syncwindow_detect_1_shift() {
    let mut bs = SyncWindow::new(cortexm4::sync32_tol0::<0xFFFFFFFF>());
    let rx = &[0x00, 0x7f, 0xff, 0xff, 0xff, 0x80, 0x00, 0x00];
    bs.extend(rx);

    let mut iter = bs.detect().into_iter();
    assert_eq!(Some((1, vec![0x7f, 0xff, 0xff, 0xff, 0x80, 0x00, 0x00])), iter.next());
    assert_eq!(None, iter.next());
}

#[test]
fn syncwindow_detect_7_shift() {
    let mut bs = SyncWindow::new(cortexm4::sync32_tol0::<0xFFFFFFFF>());
    let rx = &[0x00, 0x01, 0xff, 0xff, 0xff, 0xFE, 0x00, 0x00];
    bs.extend(rx);

    let mut iter = bs.detect().into_iter();
    assert_eq!(Some((7, vec![0x01, 0xff, 0xff, 0xff, 0xFE, 0x00, 0x00])), iter.next());
    assert_eq!(None, iter.next());
}

#[test]
fn syncwindow_detect_match_before_wrap_0_shifts() {
    let mut bs = SyncWindow::new(cortexm4::sync32_tol0::<0xFFFFFFFF>());
    assert_eq!(7, bs.buf().capacity()); // It seems as if we can fit 8.
    bs.extend(&[0x00, 0x00, 0x00, 0x00]);
    bs.extend(&[0x00, 0x00, 0x00, 0x00]);
    bs.extend(&[0x00, 0x00, 0x00, 0x00]);
    bs.extend(&[0x00, 0x00, 0x00, 0x00]);
    bs.extend(&[0x00, 0x00, 0x00, 0x00]);
    bs.extend(&[0x00, 0x00, 0x00, 0x00]);
    bs.extend(&[0x00, 0x00, 0x00, 0x00]);
    bs.discard(6);
    bs.extend(&[0xff, 0xff, 0xff, 0xff]); // Insert in the last position before wrap
    bs.extend(&[0x00, 0x00, 0x00, 0x00]); // Insert in the first position after wrap

    assert_eq!(1, bs.buf().as_slices().1.len(), "The buffer should wrap for the test to be significant");

    let mut iter = bs.detect().into_iter();
    assert_eq!(Some((0, vec![0xff, 0xff, 0xff, 0xff, 0x00, 0x00, 0x00, 0x00])), iter.next());
    assert_eq!(None, iter.next());
}

#[test]
fn syncwindow_detect_match_in_wrap_4_shifts() {
    let mut bs = SyncWindow::new(cortexm4::sync32_tol0::<0xFFFFFFFF>());
    assert_eq!(7, bs.buf().capacity()); // It seems as if we can fit 8.
    bs.extend(&[0x00, 0x00, 0x00, 0x00]);
    bs.extend(&[0x00, 0x00, 0x00, 0x00]);
    bs.extend(&[0x00, 0x00, 0x00, 0x00]);
    bs.extend(&[0x00, 0x00, 0x00, 0x00]);
    bs.extend(&[0x00, 0x00, 0x00, 0x00]);
    bs.extend(&[0x00, 0x00, 0x00, 0x00]);
    bs.extend(&[0x00, 0x00, 0x00, 0x00]);
    bs.discard(6);
    bs.extend(&[0x00, 0x00, 0x0f, 0xff]); // Insert in the last position before wrap
    bs.extend(&[0xff, 0xff, 0xf0, 0x00]); // Insert in the first position after wrap

    assert_eq!(1, bs.buf().as_slices().1.len(), "The buffer should wrap for the test to be significant");

    let mut iter = bs.detect().into_iter();
    assert_eq!(Some((4, vec![0x0f, 0xff, 0xff, 0xff, 0xf0, 0x00])), iter.next());
    assert_eq!(None, iter.next());
}

#[test]
fn syncwindow_detect_match_after_wrap_0_shifts() {
    let mut bs = SyncWindow::new(cortexm4::sync32_tol0::<0xFFFFFFFF>());
    assert_eq!(7, bs.buf().capacity()); // It seems as if we can fit 8.
    bs.extend(&[0x00, 0x00, 0x00, 0x00]);
    bs.extend(&[0x00, 0x00, 0x00, 0x00]);
    bs.extend(&[0x00, 0x00, 0x00, 0x00]);
    bs.extend(&[0x00, 0x00, 0x00, 0x00]);
    bs.extend(&[0x00, 0x00, 0x00, 0x00]);
    bs.extend(&[0x00, 0x00, 0x00, 0x00]);
    bs.extend(&[0x00, 0x00, 0x00, 0x00]);
    bs.discard(6);
    bs.extend(&[0x00, 0x00, 0x00, 0x00]); // Insert in the last position before wrap
    bs.extend(&[0xff, 0xff, 0xff, 0xff]); // Insert in the first position after wrap
    bs.extend(&[0x00, 0x00, 0x00, 0x00]); // Insert in the first position after wrap

    assert_eq!(2, bs.buf().as_slices().1.len(), "The buffer should wrap for the test to be significant");

    let mut iter = bs.detect().into_iter();
    assert_eq!(Some((0, vec![0xff, 0xff, 0xff, 0xff, 0x00, 0x00, 0x00, 0x00])), iter.next());
    assert_eq!(None, iter.next());
}

#[test]
fn detect_sweep() {
    for extend_before in 0..8 {
        for drain_end in 0..8 {
            for extend_after in 0..8 {
                for position in 0..=32 {
                    let mut bs = SyncWindow::new(cortexm4::sync32_tol0::<0xFFFFFFFF>());

                    for _ in 0..extend_before {
                        bs.extend(&[0x00, 0x00, 0x00, 0x00]);
                    }

                    bs.discard(min(extend_before, drain_end));

                    for _ in 0..extend_after {
                        bs.extend(&[0x00, 0x00, 0x00, 0x00]);
                    }

                    let mut data = [0u8; 12];
                    {
                        let bits = data.view_bits_mut::<Msb0>();

                        // Insert 32 bit syncword
                        for i in 0..32 {
                            bits.set(position + i, true);
                        }
                    }
                    bs.extend(&data);

                    println!("{:?}", data);

                    let mut iter = bs.detect().into_iter();
                    let m = iter.next().unwrap();
                    assert_eq!(position % 8, m.0 as usize);
                    assert!(m.1.len() >= 8);
                    assert_eq!(None, iter.next());
                }
            }
        }
    }
}

#[test]
fn syncwindow_hello() {
    let mut bs = SyncWindow::new(cortexm4::sync32_tol0::<0xFFFFFFFF>());
    let rx = &[0x00, 0xff, 0xff, 0xff, 0xff, 0x00, 0x00, 0x00];
    bs.extend(rx);

    let mut receptions: Vec<FrameReception> = vec![];

    // Add the received bytes into all concurrent receiptions.
    for rec in receptions.iter_mut() {
        rec.buffer.extend_from_slice(rx);
    }

    while let Some((shifts, remainder)) = bs.detect().into_iter().next() {
        receptions.push(FrameReception {
            buffer: remainder,
            shifts,
            frame_len: None,
        });
    }

    assert_eq!(1, receptions.len());
    assert_eq!(0, receptions[0].shifts);
    assert_eq!(vec![0xff, 0xff, 0xff, 0xff, 0x00, 0x00, 0x00], receptions[0].buffer);
    assert_eq!(None, receptions[0].frame_len);
}

#[test]
fn receptions() {
    let mut bs = SyncWindow::new(cortexm4::sync32_tol0::<0xFFFFFFFF>());
    let rx = &[0x00, 0xff, 0xff, 0xff, 0xff, 0x01, 0x00, 0x00];

    let mut ongoing_receptions: Vec<FrameBuffer> = vec![];

    // Add the received bytes into all ongoing, concurrent receiptions.
    for rec in ongoing_receptions.iter_mut() {
        rec.receive_buffer.extend_from_slice(rx);
    }

    bs.extend(rx);
    while let Some((shifts, remainder)) = bs.detect().into_iter().next() {
        ongoing_receptions.push(FrameBuffer {
            receive_buffer: remainder,
            shifts,
            frame_len: None, // Not yet determined
        });
    }

    let mut received = 0;
    for handle in ongoing_receptions.iter_mut() {
        if handle.frame_len.is_none() && handle.receive_buffer.len() > 4 + 1 {
            // We have at least the syncword and the length
            // Derive the length
            let length_field = handle.get_aligned_part(4..5)[0];
            handle.frame_len = Some(4 + 1 + usize::from(length_field));
        }

        if handle.is_received() {
            let aligned = handle.get_aligned();
            assert_eq!(4 + 1 + 1, aligned.len());
            received += 1;
        }
    }
    assert_eq!(1, received);
}

#[test]
fn detect_0_shifts() {
    let mut bs = BitStream::new(cortexm4::sync32_tol0::<0xFFFFFFFF>());
    let rx = &[0x00, 0xff, 0xff, 0xff, 0xff, 0x00, 0x00, 0x00];
    bs.extend(rx);

    let mut iter = bs.detect().into_iter();
    assert_eq!(Some((0, vec![0xff, 0xff, 0xff, 0xff, 0x00, 0x00, 0x00])), iter.next());
    assert_eq!(None, iter.next());
}

#[test]
fn bitstream_detect_1_shift() {
    let mut bs = BitStream::new(cortexm4::sync32_tol0::<0xFFFFFFFF>());
    let rx = &[0x00, 0x7f, 0xff, 0xff, 0xff, 0x80, 0x00, 0x00];
    bs.extend(rx);

    let mut iter = bs.detect().into_iter();
    assert_eq!(Some((1, vec![0x7f, 0xff, 0xff, 0xff, 0x80, 0x00, 0x00])), iter.next());
    assert_eq!(None, iter.next());
}

#[test]
fn bitstream_detect_7_shift() {
    let mut bs = BitStream::new(cortexm4::sync32_tol0::<0xFFFFFFFF>());
    let rx = &[0x00, 0x01, 0xff, 0xff, 0xff, 0xFE, 0x00, 0x00];
    bs.extend(rx);

    let mut iter = bs.detect().into_iter();
    assert_eq!(Some((7, vec![0x01, 0xff, 0xff, 0xff, 0xFE, 0x00, 0x00])), iter.next());
    assert_eq!(None, iter.next());
}

#[test]
fn bitstream_detect_match_before_wrap_0_shifts() {
    let mut bs = BitStream::new(cortexm4::sync32_tol0::<0xFFFFFFFF>());
    assert_eq!(7, bs.buf().capacity()); // It seems as if we can fit 8.
    for _ in 0..7 {
        bs.extend(&[0x00, 0x00, 0x00, 0x00]);
    }
    bs.discard(6);
    bs.extend(&[0xff, 0xff, 0xff, 0xff]); // Insert in the last position before wrap
    bs.extend(&[0x00, 0x00, 0x00, 0x00]); // Insert in the first position after wrap

    assert_eq!(1, bs.buf().as_slices().1.len(), "The buffer should wrap for the test to be significant");

    let mut iter = bs.detect().into_iter();
    assert_eq!(Some((0, vec![0xff, 0xff, 0xff, 0xff, 0x00, 0x00, 0x00, 0x00])), iter.next());
    assert_eq!(None, iter.next());
}

#[test]
fn bitstream_detect_match_in_wrap_4_shifts() {
    let mut bs = BitStream::new(cortexm4::sync32_tol0::<0xFFFFFFFF>());
    assert_eq!(7, bs.buf().capacity()); // It seems as if we can fit 8.
    for _ in 0..7 {
        bs.extend(&[0x00, 0x00, 0x00, 0x00]);
    }
    bs.discard(6);
    bs.extend(&[0x00, 0x00, 0x0f, 0xff]); // Insert in the last position before wrap
    bs.extend(&[0xff, 0xff, 0xf0, 0x00]); // Insert in the first position after wrap

    assert_eq!(1, bs.buf().as_slices().1.len(), "The buffer should wrap for the test to be significant");

    let mut iter = bs.detect().into_iter();
    assert_eq!(Some((4, vec![0x0f, 0xff, 0xff, 0xff, 0xf0, 0x00])), iter.next());
    assert_eq!(None, iter.next());
}

#[test]
fn bitstream_detect_match_after_wrap_0_shifts() {
    let mut bs = BitStream::new(cortexm4::sync32_tol0::<0xFFFFFFFF>());
    assert_eq!(7, bs.buf().capacity()); // It seems as if we can fit 8.
    for _ in 0..7 {
        bs.extend(&[0x00, 0x00, 0x00, 0x00]);
    }
    bs.discard(6);
    bs.extend(&[0x00, 0x00, 0x00, 0x00]); // Insert in the last position before wrap
    bs.extend(&[0xff, 0xff, 0xff, 0xff]); // Insert in the first position after wrap
    bs.extend(&[0x00, 0x00, 0x00, 0x00]); // Insert in the first position after wrap

    assert_eq!(2, bs.buf().as_slices().1.len(), "The buffer should wrap for the test to be significant");

    let mut iter = bs.detect().into_iter();
    assert_eq!(Some((0, vec![0xff, 0xff, 0xff, 0xff, 0x00, 0x00, 0x00, 0x00])), iter.next());
    assert_eq!(None, iter.next());
}

#[test]
fn bitstream_hello() {
    let mut bs = BitStream::new(cortexm4::sync32_tol0::<0xFFFFFFFF>());
    let rx = &[0x00, 0xff, 0xff, 0xff, 0xff, 0x00, 0x00, 0x00];
    bs.extend(rx);

    let mut receptions: Vec<FrameReception> = vec![];

    while let Some((shifts, remainder)) = bs.detect().into_iter().next() {
        receptions.push(FrameReception {
            buffer: remainder,
            shifts,
            frame_len: None,
        });
    }

    assert_eq!(1, receptions.len());
}

/// A zero stream of `len` bytes with 32 one bits from bit `position` on.
fn stream_with_syncword(len: usize, position: usize) -> Vec<u8> {
    let mut data = vec![0u8; len];
    {
        let bits = data.view_bits_mut::<Msb0>();
        for i in 0..32 {
            bits.set(position + i, true);
        }
    }
    data
}

#[test]
fn detect_twice_finds_nothing_new() {
    for position in 0..64 {
        let mut bs: Window = SyncWindow::new(cortexm4::sync32_tol0::<0xFFFFFFFF>());
        bs.extend(&stream_with_syncword(16, position));
        assert_eq!(1, bs.detect().len());
        assert!(bs.detect().is_empty());
        assert!(bs.buf().len() <= 1);
    }
}

#[test]
fn single_syncword_reported_once_across_calls() {
    for position in 0..=64 {
        for chunk in [4usize, 8, 12] {
            let stream = stream_with_syncword(24, position);
            let mut bs: Window = SyncWindow::new(cortexm4::sync32_tol0::<0xFFFFFFFF>());
            let mut found = vec![];
            for part in stream.chunks(chunk) {
                bs.extend(part);
                found.extend(bs.detect());
                found.extend(bs.detect());
            }
            assert_eq!(1, found.len(), "position {} chunk {}", position, chunk);
            assert_eq!((position % 8) as u8, found[0].0);
            let start = position / 8;
            assert!(found[0].1.len() >= 4);
            assert_eq!(stream[start..start + found[0].1.len()].to_vec(), found[0].1);
        }
    }
}

#[test]
fn matches_do_not_depend_on_how_bytes_arrive() {
    let mut stream = stream_with_syncword(40, 13);
    let second = stream_with_syncword(40, 200);
    for (a, b) in stream.iter_mut().zip(second.iter()) {
        *a |= *b;
    }
    let mut whole: Window = SyncWindow::new(cortexm4::sync32_tol0::<0xFFFFFFFF>());
    whole.extend(&stream);
    let expected = whole.detect();
    assert_eq!(2, expected.len());
    assert_eq!((5, stream[1..].to_vec()), expected[0]);
    assert_eq!((0, stream[25..].to_vec()), expected[1]);

    for chunk in [4usize, 8, 20] {
        let mut bs: Window = SyncWindow::new(cortexm4::sync32_tol0::<0xFFFFFFFF>());
        // Wrap the ring before the stream arrives.
        for _ in 0..6 {
            bs.extend(&[0x00, 0x00, 0x00, 0x00]);
        }
        bs.discard(6);
        for part in stream.chunks(chunk) {
            bs.extend(part);
        }
        assert_eq!(expected, bs.detect());
    }
}

#[test]
fn second_syncword_in_retired_block_is_not_reported() {
    // Two syncwords starting in the same 32-bit block: the block is retired
    // with the first, so the second is not reported.
    let mut bs: SyncWindow<Double16Detector<Exact16Comparator<0xFFFF>>, u16> =
        SyncWindow::new(Double16Detector::new());
    bs.extend(&[0xFF, 0xFF, 0x00, 0xFF, 0xFF, 0x00, 0x00, 0x00, 0x00, 0x00, 0x00, 0x00]);
    let found = bs.detect();
    assert_eq!(1, found.len());
    assert_eq!(0, found[0].0);
    assert_eq!(12, found[0].1.len());
}

#[test]
fn empty_window_detects_nothing() {
    let mut bs: Window = SyncWindow::new(cortexm4::sync32_tol0::<0xFFFFFFFF>());
    assert!(bs.detect().is_empty());
    bs.extend(&[]);
    assert!(bs.detect().is_empty());
    assert_eq!(0, bs.buf().len());
}

#[test]
fn ring_grows_past_capacity() {
    let mut bs: Window = SyncWindow::new(cortexm4::sync32_tol0::<0xFFFFFFFF>());
    let stream = stream_with_syncword(64, 300);
    bs.extend(&stream);
    assert!(bs.buf().capacity() >= 16);
    assert_eq!(16, bs.buf().len());
    let found = bs.detect();
    assert_eq!(vec![(4, stream[37..].to_vec())], found);
}
