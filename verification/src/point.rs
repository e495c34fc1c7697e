//! Acquisition points: channels of blocks of frames, and the waveforms that the
//! frames carry as little-endian 16-bit samples.
use vstd::prelude::*;

verus! {

/// One recorded frame: its time in nanoseconds and its raw samples.
pub struct Frame {
    pub time: u64,
    pub data: Vec<u8>,
}

/// A block of frames of one channel.
pub struct Block {
    pub time: u64,
    pub length: u64,
    pub bin_size: u64,
    pub frames: Vec<Frame>,
}

/// The blocks recorded by one detector channel.
pub struct Channel {
    pub id: u64,
    pub blocks: Vec<Block>,
}

/// An acquisition point.
pub struct Point {
    pub channels: Vec<Channel>,
}

/// The signed 16-bit value of two little-endian bytes.
pub open spec fn le_i16(lo: u8, hi: u8) -> int {
    let v = lo + 256 * hi;
    if v >= 32768 {
        v - 65536
    } else {
        v
    }
}

/// The waveform that a byte sequence encodes: one sample per pair of bytes, a trailing
/// odd byte being ignored.
pub open spec fn spec_waveform(data: Seq<u8>) -> Seq<i16> {
    Seq::new(data.len() / 2, |i: int| le_i16(data[2 * i], data[2 * i + 1]) as i16)
}

/// The low byte of a sample in two's complement.
pub open spec fn low_byte(x: i16) -> u8 {
    let u: int = if x < 0 {
        x + 65536
    } else {
        x as int
    };
    (u % 256) as u8
}

/// The high byte of a sample in two's complement.
pub open spec fn high_byte(x: i16) -> u8 {
    let u: int = if x < 0 {
        x + 65536
    } else {
        x as int
    };
    (u / 256) as u8
}

/// The little-endian bytes of a waveform.
pub open spec fn spec_waveform_bytes(w: Seq<i16>) -> Seq<u8> {
    Seq::new(2 * w.len(), |i: int| if i % 2 == 0 { low_byte(w[i / 2]) } else { high_byte(w[i / 2]) })
}

fn sample_at(data: &[u8], idx: usize) -> (r: i16)
    requires
        2 * idx + 1 < data@.len(),
    ensures
        r as int == le_i16(data@[2 * idx as int], data@[2 * idx + 1]),
{
    let len = data.len();
    assert(2 * idx + 1 < len);
    let lo = data[2 * idx] as i32;
    let hi = data[2 * idx + 1] as i32;
    let v: i32 = lo + 256 * hi;
    if v >= 32768 {
        (v - 65536) as i16
    } else {
        v as i16
    }
}

/// Decodes little-endian 16-bit samples.
pub fn bytes_to_waveform(data: &[u8]) -> (r: Vec<i16>)
    ensures
        r@ == spec_waveform(data@),
{
    let n = data.len() / 2;
    let mut out: Vec<i16> = Vec::with_capacity(n);
    let mut idx: usize = 0;
    while idx < n
        invariant
            n == data@.len() / 2,
            idx <= n,
            out@.len() == idx,
            forall|j: int| 0 <= j < idx ==> out@[j] == spec_waveform(data@)[j],
        decreases n - idx,
    {
        let s = sample_at(data, idx);
        out.push(s);
        idx += 1;
    }
    assert(out@ =~= spec_waveform(data@));
    out
}

/// The waveform of a frame.
pub fn frame_to_waveform(frame: &Frame) -> (r: Vec<i16>)
    ensures
        r@ == spec_waveform(frame.data@),
{
    bytes_to_waveform(frame.data.as_slice())
}

/// Encodes samples as little-endian bytes.
pub fn waveform_to_bytes(w: &[i16]) -> (r: Vec<u8>)
    requires
        2 * w@.len() <= usize::MAX,
    ensures
        r@ == spec_waveform_bytes(w@),
{
    let mut out: Vec<u8> = Vec::with_capacity(2 * w.len());
    let mut i: usize = 0;
    while i < w.len()
        invariant
            i <= w@.len(),
            2 * w@.len() <= usize::MAX,
            out@.len() == 2 * i,
            forall|j: int| 0 <= j < 2 * i ==> out@[j] == spec_waveform_bytes(w@)[j],
        decreases w@.len() - i,
    {
        let x = w[i];
        let u: i32 = if x < 0 {
            x as i32 + 65536
        } else {
            x as i32
        };
        out.push((u % 256) as u8);
        out.push((u / 256) as u8);
        i += 1;
    }
    assert(out@ =~= spec_waveform_bytes(w@));
    out
}

/// Encoding a waveform and decoding the bytes gives the waveform back.
pub proof fn lemma_waveform_roundtrip(w: Seq<i16>)
    ensures
        spec_waveform(spec_waveform_bytes(w)) == w,
{
    let b = spec_waveform_bytes(w);
    assert forall|i: int| 0 <= i < w.len() implies #[trigger] spec_waveform(b)[i] == w[i] by {
        assert(b[2 * i] == low_byte(w[i]));
        assert(b[2 * i + 1] == high_byte(w[i]));
    }
    assert(spec_waveform(b) =~= w);
}

/// Decoding bytes and encoding the waveform gives back the bytes, less a trailing odd
/// byte.
pub proof fn lemma_bytes_roundtrip(data: Seq<u8>)
    ensures
        spec_waveform_bytes(spec_waveform(data)) == data.subrange(0, 2 * (data.len() / 2) as int),
{
    let w = spec_waveform(data);
    let b = spec_waveform_bytes(w);
    assert forall|i: int| 0 <= i < b.len() implies #[trigger] b[i] == data[i] by {
        let k = i / 2;
        assert(w[k] as int == le_i16(data[2 * k], data[2 * k + 1]));
    }
    assert(b =~= data.subrange(0, 2 * (data.len() / 2) as int));
}

} // verus!
