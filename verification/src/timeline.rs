//! Packets on the time line: when each packet starts, and which packet a time
//! falls into.

use crate::format::Fmt;
use vstd::prelude::*;

verus! {

/// When packet `i` starts, in nanoseconds. The first packet starts at 0; any
/// other starts where the `dpds` entry of the packet before it ends. Unknown
/// where the index or the format do not tell.
pub open spec fn packet_time(fmt: Option<Fmt>, index: Seq<u32>, i: int) -> Option<u64> {
    if i == 0 {
        Some(0)
    } else {
        match fmt {
            Some(f) => if f.timed() && i <= index.len() {
                Some(f.nanos(index[i - 1] as int) as u64)
            } else {
                None
            },
            None => None,
        }
    }
}

/// How many blocks of `step` bytes `len` bytes make; the last may be short.
pub open spec fn blocks(len: int, step: int) -> int {
    (len + step - 1) / step
}

/// How many packets a data chunk of `size` bytes holds; the last may be short.
pub open spec fn packet_count(f: Fmt, size: int) -> int {
    blocks(size, f.packet_size())
}

/// The last packet of a data chunk of `size` bytes whose start is known.
pub open spec fn last_timed(f: Fmt, index: Seq<u32>, size: int) -> int {
    let last = packet_count(f, size) - 1;
    if last <= index.len() {
        last
    } else {
        index.len() as int
    }
}

/// Playback from the first packet on has reached packet `k`, and none after
/// it, at `time`: every packet up to `k` has started by then, and the one
/// after `k`, if there is one whose start is known, has not.
pub open spec fn plays_at(f: Fmt, index: Seq<u32>, size: int, time: int, k: int) -> bool {
    &&& 0 <= k <= last_timed(f, index, size)
    &&& forall|j: int| 0 <= j < k ==> f.nanos(#[trigger] index[j] as int) <= time
    &&& k < last_timed(f, index, size) ==> f.nanos(index[k] as int) > time
}

/// The packet that plays at `time`.
pub open spec fn playing_at(f: Fmt, index: Seq<u32>, size: int, time: int) -> int {
    choose|k: int| plays_at(f, index, size, time, k)
}

/// When packet `i` starts.
pub(crate) fn time_of_packet(fmt: &Option<Fmt>, index: &Vec<u32>, i: u64) -> (time: Option<u64>)
    ensures
        time == packet_time(*fmt, index@, i as int),
{
    if i == 0 {
        return Some(0);
    }
    match fmt {
        Some(f) => if i <= index.len() as u64 {
            f.time_of(index[(i - 1) as usize])
        } else {
            None
        },
        None => None,
    }
}

/// The packet, of a data chunk of `size` bytes, that plays at `time`.
pub(crate) fn packet_at(f: &Fmt, index: &Vec<u32>, size: u32, time: u64) -> (k: u64)
    requires
        f.timed(),
        size > 0,
    ensures
        plays_at(*f, index@, size as int, time as int, k as int),
        k == playing_at(*f, index@, size as int, time as int),
        k * f.packet_size() < size,
{
    let step: u64 = if f.block_align == 0 {
        1
    } else {
        f.block_align as u64
    };
    proof {
        lemma_last_block(size as int, f.packet_size());
    }
    let last: u64 = (size as u64 + step - 1) / step - 1;
    let entries: usize = index.len();
    let end: u64 = if last <= entries as u64 {
        last
    } else {
        entries as u64
    };
    let mut k: u64 = 0;
    while k < end
        invariant
            f.timed(),
            0 <= k <= end,
            end == last_timed(*f, index@, size as int),
            end <= entries == index@.len(),
            forall|j: int| 0 <= j < k ==> f.nanos(#[trigger] index@[j] as int) <= time,
        ensures
            plays_at(*f, index@, size as int, time as int, k as int),
        decreases end - k,
    {
        match f.time_of(index[k as usize]) {
            Some(t) => if t > time {
                break;
            },
            None => {},
        }
        k = k + 1;
    }
    proof {
        assert(k * f.packet_size() < size) by (nonlinear_arith)
            requires
                k <= packet_count(*f, size as int) - 1,
                (packet_count(*f, size as int) - 1) * f.packet_size() < size,
                f.packet_size() > 0,
        ;
        lemma_one_plays(
            *f,
            index@,
            size as int,
            time as int,
            k as int,
            playing_at(*f, index@, size as int, time as int),
        );
    }
    k
}

/// No two packets play at one time.
pub(crate) proof fn lemma_one_plays(f: Fmt, index: Seq<u32>, size: int, time: int, k: int, l: int)
    requires
        plays_at(f, index, size, time, k),
        plays_at(f, index, size, time, l),
    ensures
        k == l,
{
    if k < l {
        assert(f.nanos(index[k] as int) <= time);
    } else if l < k {
        assert(f.nanos(index[l] as int) <= time);
    }
}

/// The last of the blocks that some bytes make starts before their end and
/// reaches it.
pub(crate) proof fn lemma_last_block(len: int, step: int)
    requires
        len > 0,
        step > 0,
    ensures
        blocks(len, step) >= 1,
        (blocks(len, step) - 1) * step < len <= blocks(len, step) * step,
{
    let n = blocks(len, step);
    vstd::arithmetic::div_mod::lemma_fundamental_div_mod(len + step - 1, step);
    vstd::arithmetic::div_mod::lemma_mod_bound(len + step - 1, step);
    assert(step * n == n * step && (n - 1) * step == n * step - step) by (nonlinear_arith);
    assert(n >= 1) by (nonlinear_arith)
        requires
            n * step >= len,
            len > 0,
            step > 0,
    ;
}

} // verus!
