//! Export of a point as raw records: frames ordered by time and channel, written as
//! binary records (`time` u64 LE, channel u8, samples) or as tab-separated text.
use vstd::prelude::*;
use std::collections::BTreeMap;
use crate::point::{Point, Frame, spec_waveform};
use crate::processing::{frames_of_point, point_frames, group_by_time, spec_group_by_time, nested_view};

verus! {

/// The output path of the export: the given one, or the input path with `.tsv`
/// (text) or `.bin` (binary) appended.
pub open spec fn spec_output_path(filepath: Seq<char>, output: Option<Seq<char>>, ascii: bool) -> Seq<char> {
    match output {
        Some(o) => o,
        None => if ascii {
            filepath + ".tsv"@
        } else {
            filepath + ".bin"@
        },
    }
}

/// The view of an optional string slice.
pub open spec fn opt_str_view(o: Option<&str>) -> Option<Seq<char>> {
    match o {
        Some(s) => Some(s@),
        None => None,
    }
}

/// Chooses the output path of the export.
pub fn output_path(filepath: &str, output: Option<&str>, ascii: bool) -> (r: String)
    ensures
        r@ == spec_output_path(filepath@, opt_str_view(output), ascii),
{
    match output {
        Some(o) => o.to_owned(),
        None => {
            let mut path = filepath.to_owned();
            if ascii {
                path.append(".tsv");
            } else {
                path.append(".bin");
            }
            path
        },
    }
}

/// The eight little-endian bytes of a 64-bit word.
pub open spec fn u64_le_bytes(v: u64) -> Seq<u8> {
    Seq::new(8, |i: int| (v >> (8 * i) as u64) as u8)
}

/// A binary record: the time as eight little-endian bytes, the channel byte, then the
/// raw samples.
pub open spec fn spec_binary_record(time: u64, ch_id: u8, data: Seq<u8>) -> Seq<u8> {
    u64_le_bytes(time) + seq![ch_id] + data
}

/// Encodes one binary record.
pub fn binary_record(time: u64, ch_id: u8, data: &[u8]) -> (r: Vec<u8>)
    ensures
        r@ == spec_binary_record(time, ch_id, data@),
{
    let mut out: Vec<u8> = Vec::new();
    let mut i: u64 = 0;
    while i < 8
        invariant
            i <= 8,
            out@.len() == i,
            forall|k: int| 0 <= k < i ==> out@[k] == u64_le_bytes(time)[k],
        decreases 8 - i,
    {
        out.push((time >> (8 * i)) as u8);
        i += 1;
    }
    out.push(ch_id);
    let mut j: usize = 0;
    while j < data.len()
        invariant
            j <= data@.len(),
            out@ =~= u64_le_bytes(time) + seq![ch_id] + data@.take(j as int),
        decreases data@.len() - j,
    {
        out.push(data[j]);
        j += 1;
    }
    assert(data@.take(data@.len() as int) =~= data@);
    out
}

/// The decimal digits of a number, as `format!` writes it.
pub open spec fn dec_digits(n: nat) -> Seq<u8>
    decreases n,
{
    if n < 10 {
        seq![(48 + n) as u8]
    } else {
        dec_digits(n / 10).push((48 + n % 10) as u8)
    }
}

/// The decimal text of a signed number.
pub open spec fn dec_signed(x: int) -> Seq<u8> {
    if x < 0 {
        seq![45u8] + dec_digits((-x) as nat)
    } else {
        dec_digits(x as nat)
    }
}

fn push_decimal(buf: &mut Vec<u8>, n: u64)
    ensures
        final(buf)@ == old(buf)@ + dec_digits(n as nat),
    decreases n,
{
    if n >= 10 {
        push_decimal(buf, n / 10);
    }
    buf.push((48 + n % 10) as u8);
}

fn push_signed(buf: &mut Vec<u8>, x: i16)
    ensures
        final(buf)@ == old(buf)@ + dec_signed(x as int),
{
    if x < 0 {
        buf.push(45u8);
        let m: i32 = -(x as i32);
        push_decimal(buf, m as u64);
        assert(final(buf)@ =~= old(buf)@ + dec_signed(x as int));
    } else {
        push_decimal(buf, x as u64);
    }
}

/// The samples of a waveform as text, each followed by a tab.
pub open spec fn samples_text(w: Seq<i16>) -> Seq<u8>
    decreases w.len(),
{
    if w.len() == 0 {
        Seq::empty()
    } else {
        samples_text(w.drop_last()) + dec_signed(w.last() as int) + seq![9u8]
    }
}

/// A text row of the export: time, channel and samples, each followed by a tab, then
/// a line feed.
pub open spec fn spec_text_row(time: u64, ch_id: u8, w: Seq<i16>) -> Seq<u8> {
    dec_digits(time as nat) + seq![9u8] + dec_digits(ch_id as nat) + seq![9u8] + samples_text(w)
        + seq![10u8]
}

/// Writes one text row.
pub fn text_row(time: u64, ch_id: u8, w: &[i16]) -> (r: Vec<u8>)
    ensures
        r@ == spec_text_row(time, ch_id, w@),
{
    let mut out: Vec<u8> = Vec::new();
    push_decimal(&mut out, time);
    out.push(9u8);
    push_decimal(&mut out, ch_id as u64);
    out.push(9u8);
    let ghost head = out@;
    let mut i: usize = 0;
    while i < w.len()
        invariant
            i <= w@.len(),
            out@ == head + samples_text(w@.take(i as int)),
        decreases w@.len() - i,
    {
        assert(w@.take(i + 1).drop_last() =~= w@.take(i as int));
        push_signed(&mut out, w[i]);
        out.push(9u8);
        assert(out@ =~= head + samples_text(w@.take(i + 1)));
        i += 1;
    }
    assert(w@.take(w@.len() as int) =~= w@);
    out.push(10u8);
    assert(out@ =~= spec_text_row(time, ch_id, w@));
    out
}

/// The number that a sequence of ASCII decimal digits spells.
pub open spec fn decimal_value(s: Seq<u8>) -> int
    decreases s.len(),
{
    if s.len() == 0 {
        0
    } else {
        decimal_value(s.drop_last()) * 10 + (s.last() - 48)
    }
}

proof fn lemma_dec_digits_spell(n: nat)
    ensures
        dec_digits(n).len() > 0,
        forall|i: int| 0 <= i < dec_digits(n).len() ==> 48 <= #[trigger] dec_digits(n)[i] <= 57,
        decimal_value(dec_digits(n)) == n,
    decreases n,
{
    if n >= 10 {
        lemma_dec_digits_spell(n / 10);
        let d = dec_digits(n);
        assert(d.drop_last() =~= dec_digits(n / 10));
        assert((n / 10) * 10 + n % 10 == n) by (nonlinear_arith);
        assert(d.last() == (48 + n % 10) as u8);
        assert(d.last() - 48 == n % 10);
        assert(decimal_value(d) == decimal_value(d.drop_last()) * 10 + (d.last() - 48));
        assert forall|i: int| 0 <= i < d.len() implies 48 <= #[trigger] d[i] <= 57 by {
            if i < d.len() - 1 {
                assert(d[i] == dec_digits(n / 10)[i]);
            }
        }
    } else {
        let d = dec_digits(n);
        assert(d.drop_last() =~= Seq::<u8>::empty());
        assert(decimal_value(d.drop_last()) == 0);
        assert(d.last() == (48 + n) as u8);
    }
}

/// Whether `r[from..to)` is a nonempty run of decimal digits spelling `v`.
#[verifier::opaque]
pub open spec fn spells(r: Seq<u8>, from: int, to: int, v: int) -> bool {
    &&& 0 <= from < to <= r.len()
    &&& forall|i: int| from <= i < to ==> 48 <= #[trigger] r[i] <= 57
    &&& decimal_value(r.subrange(from, to)) == v
}

proof fn lemma_digits_spell_at(r: Seq<u8>, from: int, n: nat)
    requires
        0 <= from,
        from + dec_digits(n).len() <= r.len(),
        r.subrange(from, from + dec_digits(n).len()) == dec_digits(n),
    ensures
        spells(r, from, from + dec_digits(n).len(), n as int),
{
    reveal(spells);
    lemma_dec_digits_spell(n);
    let d = dec_digits(n);
    assert forall|i: int| from <= i < from + d.len() implies 48 <= #[trigger] r[i] <= 57 by {
        assert(r.subrange(from, from + d.len())[i - from] == d[i - from]);
    }
}

/// A text row starts with the full decimal text of the frame time and then that of the
/// channel, each ended by a tab: the bytes before the first tab spell `time` (for
/// every 64-bit time), and those up to the second tab spell `ch_id`.
pub proof fn lemma_text_row_time(time: u64, ch_id: u8, w: Seq<i16>)
    ensures
        exists|j: int, k: int|
            #![trigger spec_text_row(time, ch_id, w)[j], spec_text_row(time, ch_id, w)[k]]
            spells(spec_text_row(time, ch_id, w), 0, j, time as int) && spec_text_row(time, ch_id, w)[j] == 9
                && spells(spec_text_row(time, ch_id, w), j + 1, k, ch_id as int) && spec_text_row(time, ch_id, w)[k]
                == 9,
{
    let r = spec_text_row(time, ch_id, w);
    let d = dec_digits(time as nat);
    let c = dec_digits(ch_id as nat);
    let j = d.len() as int;
    let k = j + 1 + c.len();
    assert(r.subrange(0, j) =~= d);
    assert(r[j] == 9);
    assert(r.subrange(j + 1, k) =~= c);
    assert(r[k] == 9);
    lemma_digits_spell_at(r, 0, time as nat);
    lemma_digits_spell_at(r, j + 1, ch_id as nat);
}

/// Whether `r[from..to)` is the decimal text of the signed number `v`: a `-` before
/// the digits of its magnitude when it is negative.
#[verifier::opaque]
pub open spec fn spells_signed(r: Seq<u8>, from: int, to: int, v: int) -> bool {
    if v < 0 {
        0 <= from < r.len() && r[from] == 45 && spells(r, from + 1, to, -v)
    } else {
        spells(r, from, to, v)
    }
}

/// Where field `i` of a tab-ended list of fields starts, given the tab positions.
pub open spec fn field_start(tabs: Seq<int>, i: int) -> int {
    if i == 0 {
        0
    } else {
        tabs[i - 1] + 1
    }
}

proof fn lemma_spells_shift(r: Seq<u8>, t: Seq<u8>, off: int, from: int, to: int, v: int)
    requires
        0 <= off,
        off + t.len() <= r.len(),
        r.subrange(off, off + t.len()) == t,
        spells_signed(t, from, to, v),
    ensures
        spells_signed(r, from + off, to + off, v),
{
    reveal(spells);
    reveal(spells_signed);
    let a = if v < 0 { from + 1 } else { from };
    assert forall|i: int| from <= i < to implies r[i + off] == t[i] by {
        assert(r.subrange(off, off + t.len())[i] == t[i]);
    }
    assert(r.subrange(a + off, to + off) =~= t.subrange(a, to));
    assert forall|i: int| a + off <= i < to + off implies 48 <= #[trigger] r[i] <= 57 by {
        assert(r[(i - off) + off] == t[i - off]);
    }
}

proof fn lemma_samples_fields(w: Seq<i16>) -> (tabs: Seq<int>)
    ensures
        tabs.len() == w.len(),
        w.len() == 0 ==> samples_text(w).len() == 0,
        w.len() > 0 ==> tabs[w.len() - 1] == samples_text(w).len() - 1,
        forall|i: int| 0 <= i < w.len() ==> 0 <= #[trigger] tabs[i] < samples_text(w).len() && samples_text(w)[tabs[i]] == 9,
        forall|i: int| 0 <= i < w.len() ==> spells_signed(samples_text(w), field_start(tabs, i), #[trigger] tabs[i], w[i] as int),
    decreases w.len(),
{
    reveal(spells);
    reveal(spells_signed);
    if w.len() == 0 {
        Seq::empty()
    } else {
        let p = w.drop_last();
        let tp = lemma_samples_fields(p);
        let t0 = samples_text(p);
        let x = w.last();
        let ds = dec_signed(x as int);
        let t = samples_text(w);
        assert(t == t0 + ds + seq![9u8]);
        let start = t0.len() as int;
        let tab = start + ds.len();
        let tabs = tp.push(tab);
        assert(t.subrange(0, t0.len() as int) =~= t0);
        assert forall|i: int| 0 <= i < p.len() implies spells_signed(t, field_start(tabs, i), #[trigger] tabs[i], w[i] as int) by {
            assert(tabs[i] == tp[i]);
            assert(w[i] == p[i]);
            if i > 0 {
                assert(tabs[i - 1] == tp[i - 1]);
            }
            assert(field_start(tabs, i) == field_start(tp, i));
            lemma_spells_shift(t, t0, 0, field_start(tp, i), tp[i], p[i] as int);
        }
        assert(field_start(tabs, p.len() as int) == start) by {
            if p.len() > 0 {
                assert(tabs[p.len() - 1] == tp[p.len() - 1]);
            }
        }
        if x < 0 {
            let m = (-(x as int)) as nat;
            lemma_dec_digits_spell(m);
            let dg = dec_digits(m);
            assert(ds == seq![45u8] + dg);
            assert(t[start] == 45);
            assert(t.subrange(start + 1, tab) =~= dg);
            assert forall|i: int| start + 1 <= i < tab implies 48 <= #[trigger] t[i] <= 57 by {
                assert(t[i] == dg[i - start - 1]);
            }
        } else {
            lemma_dec_digits_spell(x as nat);
            let dg = dec_digits(x as nat);
            assert(t.subrange(start, tab) =~= dg);
            assert forall|i: int| start <= i < tab implies 48 <= #[trigger] t[i] <= 57 by {
                assert(t[i] == dg[i - start]);
            }
        }
        assert forall|i: int| 0 <= i < w.len() implies 0 <= #[trigger] tabs[i] < t.len() && t[tabs[i]] == 9 by {
            if i < p.len() {
                assert(tabs[i] == tp[i]);
                assert(t[tp[i]] == t0[tp[i]]);
            }
        }
        tabs
    }
}

/// Whether the tab positions `tabs` split the row `r` into the fields of `time`,
/// `ch_id` and the samples `w`, the row ending with a line feed after the last tab.
pub open spec fn row_fields(r: Seq<u8>, tabs: Seq<int>, time: u64, ch_id: u8, w: Seq<i16>) -> bool {
    &&& tabs.len() == w.len() + 2
    &&& forall|i: int| 0 <= i < tabs.len() ==> 0 <= #[trigger] tabs[i] < r.len() && r[tabs[i]] == 9
    &&& spells(r, 0, tabs[0], time as int)
    &&& spells(r, tabs[0] + 1, tabs[1], ch_id as int)
    &&& forall|i: int| 0 <= i < w.len() ==> spells_signed(r, tabs[i + 1] + 1, #[trigger] tabs[i + 2], w[i] as int)
    &&& r.len() == tabs[tabs.len() - 1] + 2
    &&& r[r.len() - 1] == 10
}

/// The fields of a text row, each ended by a tab, are the decimal text of the frame
/// time (for every 64-bit time), of the channel, and of each sample in order (a `-`
/// before negative ones); the row ends with a line feed after the last tab.
#[verifier::rlimit(50)]
pub proof fn lemma_text_row_fields(time: u64, ch_id: u8, w: Seq<i16>)
    ensures
        exists|tabs: Seq<int>| row_fields(spec_text_row(time, ch_id, w), tabs, time, ch_id, w),
{
    let r = spec_text_row(time, ch_id, w);
    let d = dec_digits(time as nat);
    let c = dec_digits(ch_id as nat);
    let ts = lemma_samples_fields(w);
    let t = samples_text(w);
    let j = d.len() as int;
    let k = j + 1 + c.len();
    let off = k + 1;
    assert(r =~= d + seq![9u8] + c + seq![9u8] + t + seq![10u8]);
    assert(r.subrange(0, j) =~= d);
    assert(r.subrange(j + 1, k) =~= c);
    assert(r.subrange(off, off + t.len()) =~= t);
    lemma_digits_spell_at(r, 0, time as nat);
    lemma_digits_spell_at(r, j + 1, ch_id as nat);
    let tabs = seq![j, k] + ts.map_values(|p: int| p + off);
    assert forall|i: int| 0 <= i < w.len() implies spells_signed(r, tabs[i + 1] + 1, tabs[i + 2], w[i] as int) by {
        assert(tabs[i + 2] == ts[i] + off);
        if i == 0 {
            assert(tabs[1] + 1 == field_start(ts, 0) + off);
        } else {
            assert(tabs[i + 1] == ts[i - 1] + off);
        }
        lemma_spells_shift(r, t, off, field_start(ts, i), ts[i], w[i] as int);
    }
    assert forall|i: int| 0 <= i < tabs.len() implies 0 <= tabs[i] < r.len() && r[tabs[i]] == 9 by {
        if i >= 2 {
            assert(tabs[i] == ts[i - 2] + off);
            assert(r[ts[i - 2] + off] == t[ts[i - 2]]);
        }
    }
    if w.len() == 0 {
        assert(tabs[tabs.len() - 1] == k);
    } else {
        assert(tabs[tabs.len() - 1] == ts[w.len() - 1] + off);
    }
    assert(spells(r, 0, tabs[0], time as int));
    assert(spells(r, tabs[0] + 1, tabs[1], ch_id as int));
    assert(row_fields(r, tabs, time, ch_id, w));
}

/// The number of sample columns in the text header.
pub const TEXT_COLUMNS: u64 = 75;

/// The column numbers `0..n`, each followed by a tab.
pub open spec fn column_numbers(n: nat) -> Seq<u8>
    decreases n,
{
    if n == 0 {
        Seq::empty()
    } else {
        column_numbers((n - 1) as nat) + dec_digits((n - 1) as nat) + seq![9u8]
    }
}

/// The header line of the text export: `time`, `channel`, then the sample columns
/// `0` to `74`, each followed by a tab.
pub open spec fn spec_text_header() -> Seq<u8> {
    seq![116u8, 105u8, 109u8, 101u8, 9u8, 99u8, 104u8, 97u8, 110u8, 110u8, 101u8, 108u8, 9u8]
        + column_numbers(75) + seq![10u8]
}

/// Writes the header line of the text export.
pub fn text_header() -> (r: Vec<u8>)
    ensures
        r@ == spec_text_header(),
{
    let mut out: Vec<u8> = Vec::new();
    out.push(116u8);
    out.push(105u8);
    out.push(109u8);
    out.push(101u8);
    out.push(9u8);
    out.push(99u8);
    out.push(104u8);
    out.push(97u8);
    out.push(110u8);
    out.push(110u8);
    out.push(101u8);
    out.push(108u8);
    out.push(9u8);
    let ghost head = out@;
    let mut idx: u64 = 0;
    while idx < TEXT_COLUMNS
        invariant
            idx <= 75,
            out@ == head + column_numbers(idx as nat),
        decreases 75 - idx,
    {
        push_decimal(&mut out, idx);
        out.push(9u8);
        assert(out@ =~= head + column_numbers((idx + 1) as nat));
        idx += 1;
    }
    out.push(10u8);
    assert(out@ =~= spec_text_header());
    out
}

/// The export entries of a point: for each frame in stored order, its time, its
/// channel id truncated to a byte, and its position.
pub open spec fn export_entries(channels: Seq<crate::point::Channel>) -> Seq<(u64, usize, usize)> {
    Seq::new(
        point_frames(channels).len(),
        |i: int|
            (
                point_frames(channels)[i].1.time,
                (point_frames(channels)[i].0 as u8) as usize,
                i as usize,
            ),
    )
}

/// The frames of a point ordered for export: by time, then by channel byte; of two
/// frames with the same time and channel byte the later in stored order stands. The
/// values are positions in `frames_of_point`.
pub fn export_order(point: &Point) -> (r: (Vec<(u64, &Frame)>, BTreeMap<u64, BTreeMap<usize, usize>>))
    ensures
        r.0@.len() == point_frames(point.channels@).len(),
        forall|i: int|
            0 <= i < r.0@.len() ==> (#[trigger] r.0@[i]).0 == point_frames(point.channels@)[i].0
                && *r.0@[i].1 == point_frames(point.channels@)[i].1,
        nested_view(r.1@) == spec_group_by_time(export_entries(point.channels@)),
{
    let frames = frames_of_point(point);
    let mut entries: Vec<(u64, usize, usize)> = Vec::new();
    let mut i: usize = 0;
    while i < frames.len()
        invariant
            i <= frames@.len(),
            frames@.len() == point_frames(point.channels@).len(),
            forall|k: int|
                0 <= k < frames@.len() ==> (#[trigger] frames@[k]).0 == point_frames(point.channels@)[k].0
                    && *frames@[k].1 == point_frames(point.channels@)[k].1,
            entries@ =~= export_entries(point.channels@).take(i as int),
        decreases frames@.len() - i,
    {
        let (id, frame) = frames[i];
        let ch: u8 = #[verifier::truncate] (id as u8);
        entries.push((frame.time, ch as usize, i));
        i += 1;
    }
    assert(export_entries(point.channels@).take(frames@.len() as int) =~= export_entries(point.channels@));
    let groups = group_by_time(entries.as_slice());
    (frames, groups)
}

} // verus!
