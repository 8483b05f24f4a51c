use vstd::prelude::*;

use core::ops::Range;

verus! {

/// The aligned byte made of the low `8 - shifts` bits of `hi` followed by the
/// high `shifts` bits of `lo`.
pub open spec fn realign(hi: u8, lo: u8, shifts: u8) -> u8 {
    (hi << shifts) | (lo >> ((8 - shifts) as u8))
}

/// The aligned bytes `start .. end` of a buffer whose content is shifted
/// right by `shifts` bits: with no shift the bytes themselves, else each byte
/// realigned with its successor.
pub open spec fn aligned_part(bytes: Seq<u8>, shifts: u8, start: int, end: int) -> Seq<u8> {
    if shifts == 0 {
        bytes.subrange(start, end)
    } else {
        Seq::new((end - start) as nat, |i: int| realign(bytes[start + i], bytes[start + i + 1], shifts))
    }
}

/// The bytes `a` written `shifts` bits further into the stream: the first
/// byte starts with `shifts` zero bits, and one more byte holds the last bits
/// of `a`, followed by zeros.
pub open spec fn shifted_right(a: Seq<u8>, shifts: u8) -> Seq<u8> {
    Seq::new(
        a.len() + 1,
        |i: int|
            {
                let prev: u16 = if i == 0 {
                    0
                } else {
                    a[i - 1] as u16
                };
                let cur: u16 = if i < a.len() {
                    a[i] as u16
                } else {
                    0
                };
                (((prev << 8u16) | cur) >> (shifts as u16)) as u8
            },
    )
}

/// Realigning bytes that were shifted right gives them back: the aligned
/// part `0 .. a.len()` of `a` shifted right by `shifts` is `a`.
pub proof fn lemma_align_round_trip(a: Seq<u8>, shifts: u8)
    requires
        shifts < 8,
    ensures
        aligned_part(shifted_right(a, shifts), shifts, 0, a.len() as int) == a,
{
    let b = shifted_right(a, shifts);
    let n = a.len() as int;
    assert forall|i: int| 0 <= i < n implies #[trigger] aligned_part(b, shifts, 0, n)[i] == a[i] by {
        let x: u8 = if i == 0 {
            0
        } else {
            a[i - 1]
        };
        let y: u8 = a[i];
        let z: u8 = if i + 1 < n {
            a[i + 1]
        } else {
            0
        };
        let s = shifts;
        assert(((((x as u16) << 8u16) | (y as u16)) >> 0u16) as u8 == y) by (bit_vector);
        assert(0 < s < 8 ==> ((((((x as u16) << 8u16) | (y as u16)) >> (s as u16)) as u8) << s) | ((
        (((((y as u16) << 8u16) | (z as u16)) >> (s as u16)) as u8) >> ((8 - s) as u8))) == y)
            by (bit_vector);
    }
    assert(aligned_part(b, shifts, 0, n) =~= a);
}

/// The bytes of a frame, from the block where its syncword was found on.
pub struct FrameBuffer {
    /// The frame receive buffer. This buffer is not bit aligned.
    pub receive_buffer: Vec<u8>,
    /// The number of bit shifts (0..7) that needs to be applied to the receive_buffer to make it aligned.
    pub shifts: u8,
    /// The length of the aligned frame, once known.
    pub frame_len: Option<usize>,
}

impl FrameBuffer {
    /// Whether the whole frame has been received: with a shift one more byte
    /// than the frame length is needed, for the last bits of the last byte.
    pub fn is_received(&self) -> (r: bool)
        ensures
            r == match self.frame_len {
                Some(len) => if self.shifts == 0 {
                    self.receive_buffer@.len() >= len
                } else {
                    self.receive_buffer@.len() > len
                },
                None => false,
            },
    {
        if let Some(frame_len) = self.frame_len {
            if self.shifts == 0 {
                self.receive_buffer.len() >= frame_len
            } else {
                // We need one more byte to receive the last bits for the receive
                self.receive_buffer.len() > frame_len
            }
        } else {
            // Frame length has not yet been derived
            false
        }
    }

    /// The number of aligned bytes the buffer holds.
    pub fn aligned_len(&self) -> (r: usize)
        ensures
            r == if self.shifts == 0 {
                self.receive_buffer@.len()
            } else if self.receive_buffer@.len() > 0 {
                (self.receive_buffer@.len() - 1) as nat
            } else {
                0
            },
    {
        let len = self.receive_buffer.len();
        if self.shifts == 0 {
            // No shifts needs to be made in the receive buffer
            len
        } else if len > 0 {
            // Shifts needs to be made. The aligned result will be one byte shorter than the receive buffer
            len - 1
        } else {
            // The receive buffer is empty
            0
        }
    }

    /// The whole aligned frame.
    pub fn get_aligned(&self) -> (r: Vec<u8>)
        requires
            self.shifts < 8,
            self.frame_len is Some,
            self.is_covered(0, self.frame_len->0 as int),
        ensures
            r@ == aligned_part(self.receive_buffer@, self.shifts, 0, self.frame_len->0 as int),
    {
        let frame_len = self.frame_len.unwrap();
        self.get_aligned_part(0..frame_len)
    }

    /// Whether the buffer holds what the aligned bytes `start .. end` are made of.
    pub open spec fn is_covered(&self, start: int, end: int) -> bool {
        &&& 0 <= start <= end
        &&& if self.shifts == 0 {
            end <= self.receive_buffer@.len()
        } else {
            end < self.receive_buffer@.len()
        }
    }

    /// The aligned bytes `range`.
    pub fn get_aligned_part(&self, range: Range<usize>) -> (r: Vec<u8>)
        requires
            self.shifts < 8,
            self.is_covered(range.start as int, range.end as int),
        ensures
            r@ == aligned_part(
                self.receive_buffer@,
                self.shifts,
                range.start as int,
                range.end as int,
            ),
    {
        let bytes = &self.receive_buffer;
        let mut aligned: Vec<u8> = Vec::with_capacity(range.end - range.start);
        let mut i: usize = range.start;
        if self.shifts == 0 {
            // Receive buffer is already aligned
            while i < range.end
                invariant
                    range.start <= i <= range.end,
                    range.end <= bytes@.len(),
                    aligned@ == bytes@.subrange(range.start as int, i as int),
                decreases range.end - i,
            {
                aligned.push(bytes[i]);
                i += 1;
            }
        } else {
            // Each aligned byte takes its last bits from the next byte of the receive buffer
            let left_shifts = self.shifts;
            let right_shifts = 8 - left_shifts;
            while i < range.end
                invariant
                    range.start <= i <= range.end,
                    range.end < bytes@.len(),
                    0 < left_shifts < 8,
                    right_shifts == 8 - left_shifts,
                    left_shifts == self.shifts,
                    aligned@ == Seq::new(
                        (i - range.start) as nat,
                        |j: int|
                            realign(
                                bytes@[range.start + j],
                                bytes@[range.start + j + 1],
                                left_shifts,
                            ),
                    ),
                decreases range.end - i,
            {
                aligned.push((bytes[i] << left_shifts) | (bytes[i + 1] >> right_shifts));
                i += 1;
            }
        }
        aligned
    }
}

} // verus!
