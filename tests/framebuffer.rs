use framesync::FrameBuffer;

#[test]
fn align_without_shifts() {
    let frame = FrameBuffer {
        receive_buffer: vec![1, 2, 3],
        shifts: 0,
        frame_len: None,
    };

    let aligned = frame.get_aligned_part(0..3);

    assert_eq!(vec![1, 2, 3], aligned);
}

#[test]
fn align_with_shifts() {
    let frame = FrameBuffer {
        receive_buffer: vec![0x70, 0xF0, 0x00],
        shifts: 1,
        frame_len: None,
    };

    let aligned = frame.get_aligned_part(0..2);

    assert_eq!(vec![0xE1, 0xE0], aligned);
}

#[test]
fn is_received_needs_frame_len_and_bytes() {
    let mut frame = FrameBuffer {
        receive_buffer: vec![1, 2, 3],
        shifts: 0,
        frame_len: None,
    };
    assert!(!frame.is_received());
    frame.frame_len = Some(3);
    assert!(frame.is_received());
    frame.frame_len = Some(4);
    assert!(!frame.is_received());

    // With a shift one more byte is needed.
    frame.shifts = 3;
    frame.frame_len = Some(3);
    assert!(!frame.is_received());
    frame.frame_len = Some(2);
    assert!(frame.is_received());
}

#[test]
fn aligned_len_cases() {
    let mut frame = FrameBuffer {
        receive_buffer: vec![1, 2, 3],
        shifts: 0,
        frame_len: None,
    };
    assert_eq!(3, frame.aligned_len());
    frame.shifts = 5;
    assert_eq!(2, frame.aligned_len());
    frame.receive_buffer.clear();
    assert_eq!(0, frame.aligned_len());
    frame.shifts = 0;
    assert_eq!(0, frame.aligned_len());
}

#[test]
fn get_aligned_takes_frame_len_bytes() {
    let frame = FrameBuffer {
        receive_buffer: vec![0x0F, 0xF0, 0x0F, 0xF0],
        shifts: 4,
        frame_len: Some(3),
    };
    assert_eq!(vec![0xFF, 0x00, 0xFF], frame.get_aligned());
    assert_eq!(vec![0x00, 0xFF], frame.get_aligned_part(1..3));
    assert_eq!(Vec::<u8>::new(), frame.get_aligned_part(2..2));
}

/// `a` written `shifts` bits further into a stream.
fn shifted_right(a: &[u8], shifts: u8) -> Vec<u8> {
    let mut out = Vec::new();
    let mut prev: u16 = 0;
    for &byte in a.iter().chain(std::iter::once(&0u8)) {
        let cur = byte as u16;
        out.push((((prev << 8) | cur) >> shifts) as u8);
        prev = cur;
    }
    out
}

#[test]
fn frame_buffer_round_trip() {
    let payloads: [&[u8]; 4] = [&[], &[0xA5], &[0x12, 0x34, 0x56], &[0xFF, 0x00, 0x80, 0x01, 0x7E]];
    for a in payloads {
        for shifts in 0..8u8 {
            let frame = FrameBuffer {
                receive_buffer: shifted_right(a, shifts),
                shifts,
                frame_len: Some(a.len()),
            };
            assert!(frame.is_received());
            assert_eq!(a.to_vec(), frame.get_aligned_part(0..a.len()));
            assert_eq!(a.to_vec(), frame.get_aligned());
        }
    }
}
