//! The WAVEFORMATEX of an xWMA stream, and the time line that it and the
//! `dpds` index give: `dpds` lists, packet by packet, how many bytes of PCM
//! have been decoded once that packet is done.

use crate::bytes::{le16, le32, read_le16, read_le32};
use crate::output::{WmaCaps, WMAV2_CODEC_DATA};
use vstd::prelude::*;

verus! {

/// The fields of the WAVEFORMATEX that the demuxer needs.
#[derive(Clone, Copy, Debug, PartialEq, Eq)]
pub struct Fmt {
    pub format_tag: u16,
    pub channels: u16,
    pub rate: u32,
    pub avg_bytes_per_sec: u32,
    pub block_align: u16,
    pub bits_per_sample: u16,
}

/// The format tag of WMAv2. A stream with another tag is taken for WMAv2 all
/// the same.
pub const WAVE_FORMAT_WMAUDIO2: u16 = 0x0161;

/// The WAVEFORMATEX in the first 16 bytes of `b`.
pub open spec fn fmt_of(b: Seq<u8>) -> Fmt {
    Fmt {
        format_tag: le16(b, 0) as u16,
        channels: le16(b, 2) as u16,
        rate: le32(b, 4) as u32,
        avg_bytes_per_sec: le32(b, 8) as u32,
        block_align: le16(b, 12) as u16,
        bits_per_sample: le16(b, 14) as u16,
    }
}

/// The value of an `i32` whose 32 bits are the low 32 bits of `n`.
pub open spec fn low_i32(n: int) -> int {
    let low = n % 0x1_0000_0000;
    if low < 0x8000_0000 {
        low
    } else {
        low - 0x1_0000_0000
    }
}

impl Fmt {
    /// Bytes of one decoded frame: a sample, of a whole byte at least, for
    /// each channel.
    pub open spec fn bytes_per_frame(self) -> int {
        self.channels * (if self.bits_per_sample < 8 {
            1
        } else {
            self.bits_per_sample as int / 8
        })
    }

    /// Decoded bytes can be turned into time.
    pub open spec fn timed(self) -> bool {
        self.bytes_per_frame() != 0 && self.rate != 0
    }

    /// The nanoseconds, rounded down, that the whole frames in `bytes` decoded
    /// bytes play.
    pub open spec fn nanos(self, bytes: int) -> int {
        bytes / self.bytes_per_frame() * 1_000_000_000 / self.rate as int
    }

    /// Bytes of one packet.
    pub open spec fn packet_size(self) -> int {
        if self.block_align == 0 {
            1
        } else {
            self.block_align as int
        }
    }

    /// The caps of the WMA stream.
    pub open spec fn caps(self) -> WmaCaps {
        WmaCaps {
            wmaversion: 2,
            rate: low_i32(self.rate as int) as i32,
            channels: self.channels as i32,
            block_align: self.block_align as i32,
            bitrate: low_i32(self.avg_bytes_per_sec * 8) as i32,
            depth: self.bits_per_sample as i32,
            codec_data: WMAV2_CODEC_DATA,
        }
    }

    /// Reads the WAVEFORMATEX.
    pub(crate) fn read(b: &[u8]) -> (fmt: Fmt)
        requires
            b@.len() >= 16,
        ensures
            fmt == fmt_of(b@),
    {
        Fmt {
            format_tag: read_le16(b, 0),
            channels: read_le16(b, 2),
            rate: read_le32(b, 4),
            avg_bytes_per_sec: read_le32(b, 8),
            block_align: read_le16(b, 12),
            bits_per_sample: read_le16(b, 14),
        }
    }

    /// When `bytes` decoded bytes have played, in nanoseconds.
    pub fn time_of(&self, bytes: u32) -> (time: Option<u64>)
        ensures
            time == (if self.timed() {
                Some(self.nanos(bytes as int) as u64)
            } else {
                None
            }),
            self.timed() ==> 0 <= self.nanos(bytes as int) <= u64::MAX,
    {
        let sample: u64 = if self.bits_per_sample < 8 {
            1
        } else {
            self.bits_per_sample as u64 / 8
        };
        assert(self.channels * sample <= 0xffff * 0xffff) by (nonlinear_arith)
            requires
                self.channels <= 0xffff,
                sample <= 0xffff,
        ;
        let bytes_per_frame: u64 = self.channels as u64 * sample;
        if bytes_per_frame == 0 || self.rate == 0 {
            return None;
        }
        let frames: u64 = bytes as u64 / bytes_per_frame;
        proof {
            vstd::arithmetic::div_mod::lemma_div_is_ordered_by_denominator(
                bytes as int,
                1,
                bytes_per_frame as int,
            );
            vstd::arithmetic::div_mod::lemma_div_is_ordered_by_denominator(
                frames * 1_000_000_000,
                1,
                self.rate as int,
            );
            vstd::arithmetic::div_mod::lemma_div_pos_is_pos(
                frames * 1_000_000_000,
                self.rate as int,
            );
        }
        Some(frames * 1_000_000_000 / self.rate as u64)
    }

    /// The caps of the WMA stream.
    pub fn wma_caps(&self) -> (caps: WmaCaps)
        ensures
            caps == self.caps(),
    {
        let rate: u32 = self.rate;
        let bits: i64 = self.avg_bytes_per_sec as i64 * 8;
        assert(rate as i32 == if rate < 0x8000_0000u32 {
            rate as int
        } else {
            rate - 0x1_0000_0000
        }) by (bit_vector);
        let ghost low: u64 = (bits as u64 % 0x1_0000_0000) as u64;
        assert(0 <= bits < 0x8_0000_0000i64 && low == bits as u64 % 0x1_0000_0000 ==> bits as i32
            == if low < 0x8000_0000u64 {
            low as int
        } else {
            low - 0x1_0000_0000
        }) by (bit_vector);
        WmaCaps {
            wmaversion: 2,
            rate: rate as i32,
            channels: self.channels as i32,
            block_align: self.block_align as i32,
            bitrate: bits as i32,
            depth: self.bits_per_sample as i32,
            codec_data: WMAV2_CODEC_DATA,
        }
    }
}

} // verus!
