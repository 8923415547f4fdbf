//! Little-endian fields, magic words and byte-buffer helpers shared by the
//! container parsers.

use vstd::prelude::*;

verus! {

/// `RIFF`, the first word of every RIFF file.
pub const RIFF: [u8; 4] = [0x52, 0x49, 0x46, 0x46];

/// `XWMA`, the form type of an xWMA file.
pub const XWMA: [u8; 4] = [0x58, 0x57, 0x4d, 0x41];

/// `FUZE`, the first word of every FUZ file.
pub const FUZE: [u8; 4] = [0x46, 0x55, 0x5a, 0x45];

/// `fmt `, the chunk that holds the WAVEFORMATEX.
pub const FMT: [u8; 4] = [0x66, 0x6d, 0x74, 0x20];

/// `dpds`, the chunk that holds the seek index.
pub const DPDS: [u8; 4] = [0x64, 0x70, 0x64, 0x73];

/// `data`, the chunk that holds the WMA packets.
pub const DATA: [u8; 4] = [0x64, 0x61, 0x74, 0x61];

/// The little-endian value of the two bytes of `s` that start at `i`.
pub open spec fn le16(s: Seq<u8>, i: int) -> int {
    s[i] + 0x100 * s[i + 1]
}

/// The little-endian value of the four bytes of `s` that start at `i`.
pub open spec fn le32(s: Seq<u8>, i: int) -> int {
    s[i] + 0x100 * s[i + 1] + 0x1_0000 * s[i + 2] + 0x100_0000 * s[i + 3]
}

/// The `n` bytes of `s` that start at `i`.
pub open spec fn field(s: Seq<u8>, i: int, n: int) -> Seq<u8> {
    s.subrange(i, i + n)
}

/// Reads a little-endian `u16`.
pub(crate) fn read_le16(data: &[u8], i: usize) -> (value: u16)
    requires
        i + 2 <= data@.len(),
    ensures
        value == le16(data@, i as int),
{
    data[i] as u16 + 0x100 * (data[i + 1] as u16)
}

/// Reads a little-endian `u32`.
pub(crate) fn read_le32(data: &[u8], i: usize) -> (value: u32)
    requires
        i + 4 <= data@.len(),
    ensures
        value == le32(data@, i as int),
{
    data[i] as u32 + 0x100 * (data[i + 1] as u32) + 0x1_0000 * (data[i + 2] as u32) + 0x100_0000 * (
    data[i + 3] as u32)
}

/// Tells whether the four bytes at `i` spell `word`.
pub(crate) fn is_word(data: &[u8], i: usize, word: [u8; 4]) -> (same: bool)
    requires
        i + 4 <= data@.len(),
    ensures
        same == (field(data@, i as int, 4) == word@),
{
    let same = data[i] == word[0] && data[i + 1] == word[1] && data[i + 2] == word[2] && data[i + 3]
        == word[3];
    proof {
        let f = field(data@, i as int, 4);
        assert(f[0] == data@[i as int] && f[1] == data@[i + 1] && f[2] == data@[i + 2] && f[3]
            == data@[i + 3]);
        if same {
            assert(f =~= word@);
        }
    }
    same
}

/// Copies the `n` bytes that start at `i`.
pub(crate) fn copy_range(data: &[u8], i: usize, n: usize) -> (copy: Vec<u8>)
    requires
        i + n <= data@.len(),
    ensures
        copy@ == field(data@, i as int, n as int),
{
    let mut copy: Vec<u8> = Vec::new();
    let whole: usize = data.len();
    assert(i + n <= whole);
    copy.extend_from_slice(&data[i..i + n]);
    copy
}

} // verus!
