//! Turning the ADC events read from the digitizer board into an acquisition point:
//! event times relative to the start of the point, samples scaled and stored
//! little-endian, frames gathered per channel.
use vstd::prelude::*;
use std::collections::BTreeMap;
use crate::point::{Point, Channel, Block, Frame, spec_waveform, spec_waveform_bytes, waveform_to_bytes, lemma_waveform_roundtrip};

verus! {

/// The samples of one channel in one board event.
pub struct AdcBlock {
    pub ch_num: u8,
    pub waveform: Vec<i16>,
}

/// One board event: its TAI time stamp and the samples of each triggered channel.
pub struct AdcEvent {
    pub tai_sec: u64,
    pub tai_nano_sec: u64,
    pub adc_blocks: Vec<AdcBlock>,
}

/// How long before the first stored event the point begins, in nanoseconds.
pub const POINT_START_OFFSET_NS: u128 = 1_000_000;

/// The sample width written into every block, in nanoseconds.
pub const BLOCK_BIN_SIZE: u64 = 8;

/// The time of an event in nanoseconds: the seconds, plus the sub-second counter,
/// which ticks four times per nanosecond.
pub open spec fn spec_event_time(tai_sec: u64, tai_nano_sec: u64) -> int {
    tai_sec * 1_000_000_000 + tai_nano_sec / 4
}

/// The time of an event in nanoseconds.
pub fn event_time_ns(tai_sec: u64, tai_nano_sec: u64) -> (r: u128)
    ensures
        r as int == spec_event_time(tai_sec, tai_nano_sec),
{
    (tai_sec as u128) * 1_000_000_000u128 + (tai_nano_sec as u128) / 4u128
}

/// A sample divided by four, rounding toward zero as Rust's `/` does.
pub open spec fn spec_quarter(x: i16) -> i16 {
    if x >= 0 {
        (x / 4) as i16
    } else {
        (-((-x) / 4)) as i16
    }
}

/// The stored samples of a block: each divided by four toward zero.
pub open spec fn spec_scaled(w: Seq<i16>) -> Seq<i16> {
    Seq::new(w.len(), |i: int| spec_quarter(w[i]))
}

/// Divides the samples by four (toward zero) and encodes them little-endian.
pub fn scaled_frame_bytes(w: &[i16]) -> (r: Vec<u8>)
    requires
        2 * w@.len() <= usize::MAX,
    ensures
        r@ == spec_waveform_bytes(spec_scaled(w@)),
{
    let mut scaled: Vec<i16> = Vec::with_capacity(w.len());
    let mut i: usize = 0;
    while i < w.len()
        invariant
            i <= w@.len(),
            scaled@ =~= spec_scaled(w@).take(i as int),
        decreases w@.len() - i,
    {
        let x = w[i];
        let q: i16 = if x >= 0 {
            x / 4
        } else {
            let m: i32 = -(x as i32);
            (-(m / 4)) as i16
        };
        scaled.push(q);
        i += 1;
    }
    assert(scaled@ =~= spec_scaled(w@));
    waveform_to_bytes(scaled.as_slice())
}

/// The blocks of one event that the zero suppression let through, in order: each
/// with its channel, the event time and the samples.
pub open spec fn kept_of_blocks(tai: u128, blocks: Seq<AdcBlock>, flags: Seq<bool>) -> Seq<
    (u8, u128, Seq<i16>),
>
    decreases blocks.len(),
{
    if blocks.len() == 0 {
        Seq::empty()
    } else {
        let n = blocks.len() - 1;
        kept_of_blocks(tai, blocks.drop_last(), flags) + if flags[n] {
            seq![(blocks[n].ch_num, tai, blocks[n].waveform@)]
        } else {
            Seq::empty()
        }
    }
}

/// The blocks of all events that the zero suppression let through, in order.
pub open spec fn spec_kept(events: Seq<AdcEvent>, keep: Seq<Vec<bool>>) -> Seq<(u8, u128, Seq<i16>)>
    decreases events.len(),
{
    if events.len() == 0 {
        Seq::empty()
    } else {
        let n = events.len() - 1;
        spec_kept(events.drop_last(), keep) + kept_of_blocks(
            spec_event_time(events[n].tai_sec, events[n].tai_nano_sec) as u128,
            events[n].adc_blocks@,
            keep[n]@,
        )
    }
}

/// Whether the zero-suppression flags give one flag per block of every event.
pub open spec fn flags_fit(events: Seq<AdcEvent>, keep: Seq<Vec<bool>>) -> bool {
    &&& keep.len() == events.len()
    &&& forall|i: int| 0 <= i < events.len() ==> (#[trigger] keep[i])@.len() == events[i].adc_blocks@.len()
}

/// The view of a kept block.
pub open spec fn kept_view(e: (u8, u128, &[i16])) -> (u8, u128, Seq<i16>) {
    (e.0, e.1, e.2@)
}

/// The blocks that the zero suppression let through (`keep[i][j]` for block `j` of
/// event `i`), each with its channel and event time.
pub fn kept_blocks<'a>(events: &'a [AdcEvent], keep: &[Vec<bool>]) -> (r: Vec<(u8, u128, &'a [i16])>)
    requires
        flags_fit(events@, keep@),
    ensures
        r@.map_values(|e: (u8, u128, &[i16])| kept_view(e)) == spec_kept(events@, keep@),
{
    let mut out: Vec<(u8, u128, &'a [i16])> = Vec::new();
    let mut i: usize = 0;
    while i < events.len()
        invariant
            i <= events@.len(),
            flags_fit(events@, keep@),
            out@.map_values(|e: (u8, u128, &[i16])| kept_view(e)) == spec_kept(events@.take(i as int), keep@),
        decreases events@.len() - i,
    {
        let event = &events[i];
        let tai = event_time_ns(event.tai_sec, event.tai_nano_sec);
        let flags = &keep[i];
        let ghost prefix = out@.map_values(|e: (u8, u128, &[i16])| kept_view(e));
        let mut j: usize = 0;
        while j < event.adc_blocks.len()
            invariant
                event == events@[i as int],
                flags == keep@[i as int],
                flags@.len() == event.adc_blocks@.len(),
                j <= event.adc_blocks@.len(),
                out@.map_values(|e: (u8, u128, &[i16])| kept_view(e)) == prefix + kept_of_blocks(
                    tai,
                    event.adc_blocks@.take(j as int),
                    flags@,
                ),
            decreases event.adc_blocks@.len() - j,
        {
            let block = &event.adc_blocks[j];
            let ghost before = out@;
            assert(event.adc_blocks@.take(j + 1).drop_last() =~= event.adc_blocks@.take(j as int));
            if flags[j] {
                let w = block.waveform.as_slice();
                out.push((block.ch_num, tai, w));
                assert(out@.map_values(|e: (u8, u128, &[i16])| kept_view(e)) =~= before.map_values(
                    |e: (u8, u128, &[i16])| kept_view(e),
                ).push((block.ch_num, tai, block.waveform@)));
            }
            assert(out@.map_values(|e: (u8, u128, &[i16])| kept_view(e)) =~= prefix + kept_of_blocks(
                tai,
                event.adc_blocks@.take(j + 1),
                flags@,
            ));
            j += 1;
        }
        assert(event.adc_blocks@.take(event.adc_blocks@.len() as int) =~= event.adc_blocks@);
        assert(events@.take(i + 1).drop_last() =~= events@.take(i as int));
        i += 1;
    }
    assert(events@.take(events@.len() as int) =~= events@);
    out
}

/// The view of a frame: its time and its bytes.
pub open spec fn frame_view(f: Frame) -> (u64, Seq<u8>) {
    (f.time, f.data@)
}

/// The stored frame of a kept block: its time relative to `begin` (truncated to 64
/// bits) and its scaled samples.
pub open spec fn spec_stored_frame(e: (u8, u128, Seq<i16>), begin: u128) -> (u64, Seq<u8>) {
    ((e.1 - begin) as u64, spec_waveform_bytes(spec_scaled(e.2)))
}

/// The stored frames of the kept blocks, gathered per channel in order.
pub open spec fn spec_frames_by_channel(kept: Seq<(u8, u128, Seq<i16>)>, begin: u128) -> Map<
    u8,
    Seq<(u64, Seq<u8>)>,
>
    decreases kept.len(),
{
    if kept.len() == 0 {
        Map::empty()
    } else {
        let g = spec_frames_by_channel(kept.drop_last(), begin);
        let e = kept.last();
        let prev = if g.contains_key(e.0) {
            g[e.0]
        } else {
            Seq::empty()
        };
        g.insert(e.0, prev.push(spec_stored_frame(e, begin)))
    }
}

/// The view of frames gathered per channel.
pub open spec fn channel_frames_view(m: Map<u8, Vec<Frame>>) -> Map<u8, Seq<(u64, Seq<u8>)>> {
    Map::new(|c: u8| m.contains_key(c), |c: u8| m[c]@.map_values(|f: Frame| frame_view(f)))
}

/// Whether every kept block comes no earlier than `begin` and its samples can be
/// stored.
pub open spec fn kept_storable(kept: Seq<(u8, u128, Seq<i16>)>, begin: u128) -> bool {
    forall|k: int| 0 <= k < kept.len() ==> (#[trigger] kept[k]).1 >= begin && 2 * kept[k].2.len() <= usize::MAX
}

/// Gathers the stored frames of the kept blocks per channel.
pub fn frames_by_channel(kept: &[(u8, u128, &[i16])], begin: u128) -> (r: BTreeMap<u8, Vec<Frame>>)
    requires
        kept_storable(kept@.map_values(|e: (u8, u128, &[i16])| kept_view(e)), begin),
    ensures
        channel_frames_view(r@) == spec_frames_by_channel(
            kept@.map_values(|e: (u8, u128, &[i16])| kept_view(e)),
            begin,
        ),
{
    let ghost kv = kept@.map_values(|e: (u8, u128, &[i16])| kept_view(e));
    let mut groups: BTreeMap<u8, Vec<Frame>> = BTreeMap::new();
    let mut i: usize = 0;
    assert(channel_frames_view(groups@) =~= spec_frames_by_channel(kv.take(0), begin));
    while i < kept.len()
        invariant
            i <= kept@.len(),
            kv == kept@.map_values(|e: (u8, u128, &[i16])| kept_view(e)),
            kept_storable(kv, begin),
            channel_frames_view(groups@) == spec_frames_by_channel(kv.take(i as int), begin),
        decreases kept@.len() - i,
    {
        let (ch, tai, w) = kept[i];
        assert(kv[i as int] == (ch, tai, w@));
        assert(tai >= begin && 2 * w@.len() <= usize::MAX);
        let data = scaled_frame_bytes(w);
        let frame = Frame {
            time: #[verifier::truncate]
            ((tai - begin) as u64),
            data,
        };
        let ghost before = channel_frames_view(groups@);
        let mut list = match groups.remove(&ch) {
            Some(l) => l,
            None => Vec::new(),
        };
        let ghost old_list = list@;
        assert(old_list.map_values(|f: Frame| frame_view(f)) =~= (if before.contains_key(ch) {
            before[ch]
        } else {
            Seq::empty()
        }));
        list.push(frame);
        assert(list@.map_values(|f: Frame| frame_view(f)) =~= old_list.map_values(
            |f: Frame| frame_view(f),
        ).push(spec_stored_frame(kv[i as int], begin)));
        groups.insert(ch, list);
        assert(kv.take(i + 1).drop_last() =~= kv.take(i as int));
        assert(kv.take(i + 1).last() == kv[i as int]);
        assert(channel_frames_view(groups@) =~= spec_frames_by_channel(kv.take(i + 1), begin));
        i += 1;
    }
    assert(kv.take(kv.len() as int) =~= kv);
    groups
}

/// Whether the channels of a point are the gathered frames of `groups`, in increasing
/// channel order, each in a single block that starts at `begin`.
pub open spec fn point_of_groups(channels: Seq<Channel>, groups: Map<u8, Seq<(u64, Seq<u8>)>>, begin: u128) -> bool {
    &&& forall|k: int, l: int| 0 <= k < l < channels.len() ==> channels[k].id < channels[l].id
    &&& forall|c: u8| groups.contains_key(c) <==> exists|k: int| 0 <= k < channels.len() && #[trigger] channels[k].id == c as u64
    &&& forall|k: int| 0 <= k < channels.len() ==> {
        let ch = #[trigger] channels[k];
        &&& ch.id < 256
        &&& groups.contains_key(ch.id as u8)
        &&& ch.blocks@.len() == 1
        &&& ch.blocks@[0].time == begin as u64
        &&& ch.blocks@[0].length == 0
        &&& ch.blocks@[0].bin_size == 8
        &&& ch.blocks@[0].frames@.map_values(|f: Frame| frame_view(f)) == groups[ch.id as u8]
    }
}

/// Builds a point with one single-block channel per group, in increasing channel order.
pub fn assemble_point(groups: BTreeMap<u8, Vec<Frame>>, begin: u128) -> (r: Point)
    ensures
        point_of_groups(r.channels@, channel_frames_view(groups@), begin),
{
    let keys = crate::processing::sorted_u8_keys(&groups);
    let ghost g0 = channel_frames_view(groups@);
    let mut rest = groups;
    let mut channels: Vec<Channel> = Vec::new();
    let block_time: u64 = #[verifier::truncate] (begin as u64);
    let mut k: usize = 0;
    while k < keys.len()
        invariant
            k <= keys@.len(),
            keys@.to_set() == g0.dom(),
            keys@.no_duplicates(),
            forall|i: int, j: int| 0 <= i < j < keys@.len() ==> keys@[i] < keys@[j],
            block_time == begin as u64,
            channels@.len() == k,
            forall|i: int| 0 <= i < k ==> (#[trigger] channels@[i]).id == keys@[i] as u64,
            forall|i: int| 0 <= i < k ==> {
                let ch = #[trigger] channels@[i];
                &&& ch.blocks@.len() == 1
                &&& ch.blocks@[0].time == block_time
                &&& ch.blocks@[0].length == 0
                &&& ch.blocks@[0].bin_size == 8
                &&& ch.blocks@[0].frames@.map_values(|f: Frame| frame_view(f)) == g0[keys@[i]]
            },
            forall|j: int| k <= j < keys@.len() ==> #[trigger] rest@.contains_key(keys@[j])
                && rest@[keys@[j]]@.map_values(|f: Frame| frame_view(f)) == g0[keys@[j]],
        decreases keys@.len() - k,
    {
        let key = keys[k];
        assert(rest@.contains_key(keys@[k as int]));
        let ghost before = rest@;
        let frames = match rest.remove(&key) {
            Some(f) => f,
            None => Vec::new(),
        };
        assert forall|j: int| k + 1 <= j < keys@.len() implies #[trigger] rest@.contains_key(keys@[j])
            && rest@[keys@[j]]@.map_values(|f: Frame| frame_view(f)) == g0[keys@[j]] by {
            assert(keys@[j] != keys@[k as int]);
            assert(before.contains_key(keys@[j]));
        }
        let mut blocks: Vec<Block> = Vec::new();
        blocks.push(Block { time: block_time, length: 0, bin_size: BLOCK_BIN_SIZE, frames });
        channels.push(Channel { id: key as u64, blocks });
        k += 1;
    }
    proof {
        assert forall|c: u8| g0.contains_key(c) implies exists|k: int| 0 <= k < channels@.len() && #[trigger] channels@[k].id == c as u64 by {
            assert(keys@.to_set().contains(c));
            let i = choose|i: int| 0 <= i < keys@.len() && keys@[i] == c;
            assert(channels@[i].id == c as u64);
        }
        assert forall|c: u8| (exists|k: int| 0 <= k < channels@.len() && #[trigger] channels@[k].id == c as u64) implies g0.contains_key(c) by {
            let i = choose|i: int| 0 <= i < channels@.len() && #[trigger] channels@[i].id == c as u64;
            assert(keys@[i] == c);
            assert(keys@.to_set().contains(keys@[i]));
        }
        assert forall|i: int| 0 <= i < channels@.len() implies g0.contains_key((#[trigger] channels@[i]).id as u8) by {
            assert(keys@.to_set().contains(keys@[i]));
        }
    }
    Point { channels }
}

/// Whether the kept blocks can be stored: the first is at least the start offset after
/// time zero, none is earlier than the point start, and each fits in memory as bytes.
pub open spec fn events_storable(events: Seq<AdcEvent>, keep: Seq<Vec<bool>>) -> bool {
    let kept = spec_kept(events, keep);
    kept.len() > 0 ==> {
        &&& kept[0].1 >= POINT_START_OFFSET_NS
        &&& kept_storable(kept, (kept[0].1 - POINT_START_OFFSET_NS) as u128)
    }
}

/// Whether `channels` is the point of a run of board events: empty when no block was
/// kept; otherwise starting one millisecond before the first kept block, with the kept
/// frames of each channel in one block, channels in increasing order.
pub open spec fn point_of_events(channels: Seq<Channel>, events: Seq<AdcEvent>, keep: Seq<Vec<bool>>) -> bool {
    let kept = spec_kept(events, keep);
    if kept.len() == 0 {
        channels.len() == 0
    } else {
        let begin = (kept[0].1 - POINT_START_OFFSET_NS) as u128;
        point_of_groups(channels, spec_frames_by_channel(kept, begin), begin)
    }
}

/// Builds the acquisition point of a run of board events. `keep[i][j]` says whether
/// block `j` of event `i` passed the zero suppression. The point starts one
/// millisecond before the first kept block; every channel holds one block with the
/// channel's kept frames, in order.
pub fn events_to_point(events: &[AdcEvent], keep: &[Vec<bool>]) -> (r: Point)
    requires
        flags_fit(events@, keep@),
        events_storable(events@, keep@),
    ensures
        point_of_events(r.channels@, events@, keep@),
{
    let kept = kept_blocks(events, keep);
    let ghost kv = kept@.map_values(|e: (u8, u128, &[i16])| kept_view(e));
    if kept.len() == 0 {
        return Point { channels: Vec::new() };
    }
    assert(kv[0] == kept_view(kept@[0]));
    let begin: u128 = kept[0].1 - POINT_START_OFFSET_NS;
    let groups = frames_by_channel(kept.as_slice(), begin);
    assemble_point(groups, begin)
}

/// The point of a run of board events when its kept blocks can be stored (see
/// `events_storable`), otherwise `None`: the first kept block less than the start
/// offset after time zero, or a block too long to hold as bytes.
pub fn try_events_to_point(events: &[AdcEvent], keep: &[Vec<bool>]) -> (r: Option<Point>)
    requires
        flags_fit(events@, keep@),
    ensures
        r is None <==> !events_storable(events@, keep@),
        r matches Some(p) ==> point_of_events(p.channels@, events@, keep@),
{
    let kept = kept_blocks(events, keep);
    let ghost kv = kept@.map_values(|e: (u8, u128, &[i16])| kept_view(e));
    if kept.len() > 0 {
        assert(kv[0] == kept_view(kept@[0]));
        if kept[0].1 < POINT_START_OFFSET_NS {
            return None;
        }
        let begin: u128 = kept[0].1 - POINT_START_OFFSET_NS;
        let mut k: usize = 0;
        while k < kept.len()
            invariant
                k <= kept@.len(),
                kv == kept@.map_values(|e: (u8, u128, &[i16])| kept_view(e)),
                kv == spec_kept(events@, keep@),
                kv.len() > 0,
                kv[0].1 >= POINT_START_OFFSET_NS,
                begin == kv[0].1 - POINT_START_OFFSET_NS,
                forall|m: int| 0 <= m < k ==> (#[trigger] kv[m]).1 >= begin && 2 * kv[m].2.len() <= usize::MAX,
            decreases kept@.len() - k,
        {
            assert(kv[k as int] == kept_view(kept@[k as int]));
            if kept[k].1 < begin || kept[k].2.len().checked_mul(2).is_none() {
                assert(!((kv[k as int]).1 >= begin && 2 * kv[k as int].2.len() <= usize::MAX));
                assert(begin == (kv[0].1 - POINT_START_OFFSET_NS) as u128);
                assert(!kept_storable(kv, begin));
                return None;
            }
            k += 1;
        }
    }
    Some(events_to_point(events, keep))
}

/// The stored bytes of the kept blocks of channel `c`, in order.
pub open spec fn channel_data(kept: Seq<(u8, u128, Seq<i16>)>, c: u8) -> Seq<Seq<u8>>
    decreases kept.len(),
{
    if kept.len() == 0 {
        Seq::empty()
    } else {
        channel_data(kept.drop_last(), c) + if kept.last().0 == c {
            seq![spec_waveform_bytes(spec_scaled(kept.last().2))]
        } else {
            Seq::empty()
        }
    }
}

/// The bytes of a sequence of stored frames.
pub open spec fn frame_datas(fs: Seq<(u64, Seq<u8>)>) -> Seq<Seq<u8>> {
    fs.map_values(|f: (u64, Seq<u8>)| f.1)
}

proof fn lemma_groups_hold_channel_data(kept: Seq<(u8, u128, Seq<i16>)>, begin: u128, c: u8)
    ensures
        spec_frames_by_channel(kept, begin).contains_key(c) ==> frame_datas(
            spec_frames_by_channel(kept, begin)[c],
        ) == channel_data(kept, c) && channel_data(kept, c).len() > 0,
        !spec_frames_by_channel(kept, begin).contains_key(c) ==> channel_data(kept, c).len() == 0,
    decreases kept.len(),
{
    if kept.len() > 0 {
        let prefix = kept.drop_last();
        lemma_groups_hold_channel_data(prefix, begin, c);
        let g = spec_frames_by_channel(prefix, begin);
        let e = kept.last();
        if e.0 == c {
            let prev = if g.contains_key(c) {
                g[c]
            } else {
                Seq::empty()
            };
            assert(frame_datas(prev.push(spec_stored_frame(e, begin))) =~= frame_datas(prev).push(
                spec_waveform_bytes(spec_scaled(e.2)),
            ));
            if !g.contains_key(c) {
                assert(frame_datas(prev) =~= Seq::<Seq<u8>>::empty());
            }
            assert(channel_data(kept, c) =~= channel_data(prefix, c).push(spec_waveform_bytes(spec_scaled(e.2))));
        } else {
            assert(channel_data(kept, c) =~= channel_data(prefix, c));
        }
    }
}

proof fn lemma_channel_data_from_kept(kept: Seq<(u8, u128, Seq<i16>)>, c: u8, i: int)
    requires
        0 <= i < channel_data(kept, c).len(),
    ensures
        exists|m: int|
            0 <= m < kept.len() && (#[trigger] kept[m]).0 == c && channel_data(kept, c)[i]
                == spec_waveform_bytes(spec_scaled(kept[m].2)),
    decreases kept.len(),
{
    let prefix = kept.drop_last();
    if i < channel_data(prefix, c).len() {
        lemma_channel_data_from_kept(prefix, c, i);
        let m = choose|m: int|
            0 <= m < prefix.len() && (#[trigger] prefix[m]).0 == c && channel_data(prefix, c)[i]
                == spec_waveform_bytes(spec_scaled(prefix[m].2));
        assert(kept[m] == prefix[m]);
    } else {
        let m = kept.len() - 1;
        assert(kept[m] == kept.last());
    }
}

/// Every frame of a point built from board events decodes to the samples of one of the
/// kept blocks of its channel, each divided by four toward zero.
pub proof fn lemma_frames_decode_to_quartered_samples(
    channels: Seq<Channel>,
    events: Seq<AdcEvent>,
    keep: Seq<Vec<bool>>,
    k: int,
    i: int,
)
    requires
        point_of_events(channels, events, keep),
        0 <= k < channels.len(),
        0 <= i < channels[k].blocks@[0].frames@.len(),
    ensures
        exists|m: int|
            0 <= m < spec_kept(events, keep).len() && (#[trigger] spec_kept(events, keep)[m]).0 as u64
                == channels[k].id && spec_waveform(channels[k].blocks@[0].frames@[i].data@) == spec_scaled(
                spec_kept(events, keep)[m].2,
            ),
{
    let kept = spec_kept(events, keep);
    let begin = (kept[0].1 - POINT_START_OFFSET_NS) as u128;
    let g = spec_frames_by_channel(kept, begin);
    let ch = channels[k];
    let c = ch.id as u8;
    assert(ch.blocks@[0].frames@.map_values(|f: Frame| frame_view(f)) == g[c]);
    lemma_groups_hold_channel_data(kept, begin, c);
    let f = ch.blocks@[0].frames@[i];
    assert(g[c][i] == frame_view(f));
    assert(frame_datas(g[c])[i] == f.data@);
    lemma_channel_data_from_kept(kept, c, i);
    let m = choose|m: int|
        0 <= m < kept.len() && (#[trigger] kept[m]).0 == c && channel_data(kept, c)[i]
            == spec_waveform_bytes(spec_scaled(kept[m].2));
    lemma_waveform_roundtrip(spec_scaled(kept[m].2));
    assert(kept[m].0 as u64 == ch.id);
}

/// Whether `a` is `b` with some elements left out: `a[k]` is `b[idx[k]]`, the
/// positions increasing.
pub open spec fn subseq_by<A>(a: Seq<A>, b: Seq<A>, idx: Seq<int>) -> bool {
    &&& idx.len() == a.len()
    &&& forall|k: int| 0 <= k < idx.len() ==> 0 <= #[trigger] idx[k] < b.len() && a[k] == b[idx[k]]
    &&& forall|k: int, l: int| #![trigger idx[k], idx[l]] 0 <= k < l < idx.len() ==> idx[k] < idx[l]
}

/// Whether `a` is a subsequence of `b`.
pub open spec fn is_subsequence<A>(a: Seq<A>, b: Seq<A>) -> bool {
    exists|idx: Seq<int>| subseq_by(a, b, idx)
}

proof fn lemma_subseq_concat<A>(
    a1: Seq<A>,
    b1: Seq<A>,
    i1: Seq<int>,
    a2: Seq<A>,
    b2: Seq<A>,
    i2: Seq<int>,
) -> (idx: Seq<int>)
    requires
        subseq_by(a1, b1, i1),
        subseq_by(a2, b2, i2),
    ensures
        subseq_by(a1 + a2, b1 + b2, idx),
{
    let shifted = i2.map_values(|j: int| j + b1.len());
    let idx = i1 + shifted;
    assert forall|k: int| 0 <= k < idx.len() implies 0 <= #[trigger] idx[k] < (b1 + b2).len() && (a1
        + a2)[k] == (b1 + b2)[idx[k]] by {
        if k < i1.len() {
            assert(idx[k] == i1[k]);
        } else {
            assert(idx[k] == i2[k - i1.len()] + b1.len());
            assert((b1 + b2)[idx[k]] == b2[i2[k - i1.len()]]);
        }
    }
    assert forall|k: int, l: int| #![trigger idx[k], idx[l]] 0 <= k < l < idx.len() implies idx[k]
        < idx[l] by {
        if l < i1.len() {
            assert(idx[k] == i1[k] && idx[l] == i1[l]);
        } else if k < i1.len() {
            assert(idx[k] == i1[k]);
            assert(idx[l] == i2[l - i1.len()] + b1.len());
        } else {
            assert(idx[k] == i2[k - i1.len()] + b1.len());
            assert(idx[l] == i2[l - i1.len()] + b1.len());
        }
    }
    idx
}

proof fn lemma_channel_data_concat(a: Seq<(u8, u128, Seq<i16>)>, b: Seq<(u8, u128, Seq<i16>)>, c: u8)
    ensures
        channel_data(a + b, c) == channel_data(a, c) + channel_data(b, c),
    decreases b.len(),
{
    if b.len() == 0 {
        assert(a + b =~= a);
        assert(channel_data(a, c) + channel_data(b, c) =~= channel_data(a, c));
    } else {
        lemma_channel_data_concat(a, b.drop_last(), c);
        assert((a + b).drop_last() =~= a + b.drop_last());
        assert((a + b).last() == b.last());
        assert(channel_data(a + b, c) =~= channel_data(a, c) + channel_data(b, c));
    }
}

proof fn lemma_blocks_subseq(tai: u128, blocks: Seq<AdcBlock>, flags: Seq<bool>, all: Seq<bool>, c: u8) -> (idx: Seq<int>)
    requires
        flags.len() >= blocks.len(),
        all.len() >= blocks.len(),
        forall|j: int| 0 <= j < blocks.len() ==> all[j],
    ensures
        subseq_by(
            channel_data(kept_of_blocks(tai, blocks, flags), c),
            channel_data(kept_of_blocks(tai, blocks, all), c),
            idx,
        ),
    decreases blocks.len(),
{
    if blocks.len() == 0 {
        Seq::empty()
    } else {
        let n = blocks.len() - 1;
        let i1 = lemma_blocks_subseq(tai, blocks.drop_last(), flags, all, c);
        let piece = seq![(blocks[n].ch_num, tai, blocks[n].waveform@)];
        let fk: Seq<(u8, u128, Seq<i16>)> = if flags[n] {
            piece
        } else {
            Seq::empty()
        };
        let pa = kept_of_blocks(tai, blocks.drop_last(), flags);
        let pb = kept_of_blocks(tai, blocks.drop_last(), all);
        lemma_channel_data_concat(pa, fk, c);
        lemma_channel_data_concat(pb, piece, c);
        assert(kept_of_blocks(tai, blocks, all) == pb + piece);
        assert(piece.drop_last() =~= Seq::<(u8, u128, Seq<i16>)>::empty());
        let i2: Seq<int> = if channel_data(fk, c).len() == 0 {
            Seq::empty()
        } else {
            seq![0int]
        };
        let empty = Seq::<(u8, u128, Seq<i16>)>::empty();
        assert(piece.drop_last() =~= empty);
        assert(channel_data(empty, c) =~= Seq::<Seq<u8>>::empty());
        assert(piece.last() == (blocks[n].ch_num, tai, blocks[n].waveform@));
        if flags[n] {
            assert(fk == piece);
            if blocks[n].ch_num == c {
                assert(channel_data(piece, c) =~= seq![spec_waveform_bytes(spec_scaled(blocks[n].waveform@))]);
            } else {
                assert(channel_data(piece, c) =~= Seq::<Seq<u8>>::empty());
            }
        } else {
            assert(fk == empty);
        }
        assert(subseq_by(channel_data(fk, c), channel_data(piece, c), i2));
        lemma_subseq_concat(channel_data(pa, c), channel_data(pb, c), i1, channel_data(fk, c), channel_data(piece, c), i2)
    }
}

proof fn lemma_kept_subseq(events: Seq<AdcEvent>, keep: Seq<Vec<bool>>, all: Seq<Vec<bool>>, c: u8) -> (idx: Seq<int>)
    requires
        keep.len() >= events.len(),
        all.len() >= events.len(),
        forall|i: int| 0 <= i < events.len() ==> (#[trigger] keep[i])@.len() == events[i].adc_blocks@.len(),
        forall|i: int| 0 <= i < events.len() ==> (#[trigger] all[i])@.len() == events[i].adc_blocks@.len(),
        forall|i: int, j: int| 0 <= i < events.len() && 0 <= j < all[i]@.len() ==> #[trigger] all[i]@[j],
    ensures
        subseq_by(channel_data(spec_kept(events, keep), c), channel_data(spec_kept(events, all), c), idx),
    decreases events.len(),
{
    if events.len() == 0 {
        Seq::empty()
    } else {
        let n = events.len() - 1;
        let i1 = lemma_kept_subseq(events.drop_last(), keep, all, c);
        let tai = spec_event_time(events[n].tai_sec, events[n].tai_nano_sec) as u128;
        assert(forall|j: int| 0 <= j < events[n].adc_blocks@.len() ==> #[trigger] all[n]@[j]);
        let i2 = lemma_blocks_subseq(tai, events[n].adc_blocks@, keep[n]@, all[n]@, c);
        lemma_channel_data_concat(spec_kept(events.drop_last(), keep), kept_of_blocks(tai, events[n].adc_blocks@, keep[n]@), c);
        lemma_channel_data_concat(spec_kept(events.drop_last(), all), kept_of_blocks(tai, events[n].adc_blocks@, all[n]@), c);
        lemma_subseq_concat(
            channel_data(spec_kept(events.drop_last(), keep), c),
            channel_data(spec_kept(events.drop_last(), all), c),
            i1,
            channel_data(kept_of_blocks(tai, events[n].adc_blocks@, keep[n]@), c),
            channel_data(kept_of_blocks(tai, events[n].adc_blocks@, all[n]@), c),
            i2,
        )
    }
}

/// The frame bytes of a block.
pub open spec fn block_datas(frames: Seq<Frame>) -> Seq<Seq<u8>> {
    frames.map_values(|f: Frame| f.data@)
}

proof fn lemma_channel_kept_in_full(
    p: Seq<Channel>,
    q: Seq<Channel>,
    events: Seq<AdcEvent>,
    keep: Seq<Vec<bool>>,
    all: Seq<Vec<bool>>,
    k: int,
) -> (l: int)
    requires
        flags_fit(events, keep),
        flags_fit(events, all),
        forall|i: int, j: int| 0 <= i < events.len() && 0 <= j < all[i]@.len() ==> #[trigger] all[i]@[j],
        point_of_events(p, events, keep),
        point_of_events(q, events, all),
        0 <= k < p.len(),
    ensures
        0 <= l < q.len(),
        q[l].id == p[k].id,
        is_subsequence(block_datas(p[k].blocks@[0].frames@), block_datas(q[l].blocks@[0].frames@)),
        p[k].blocks@[0].frames@.len() <= q[l].blocks@[0].frames@.len(),
{
        let kp = spec_kept(events, keep);
        let kq = spec_kept(events, all);
        assert(kp.len() > 0);
        let bp = (kp[0].1 - POINT_START_OFFSET_NS) as u128;
        let gp = spec_frames_by_channel(kp, bp);
        let c = p[k].id as u8;
        assert(gp.contains_key(c));
        lemma_groups_hold_channel_data(kp, bp, c);
        let idx = lemma_kept_subseq(events, keep, all, c);
        assert(0 <= idx[0] < channel_data(kq, c).len());
        if kq.len() == 0 {
            assert(channel_data(kq, c) =~= Seq::<Seq<u8>>::empty());
        }
        let bq = (kq[0].1 - POINT_START_OFFSET_NS) as u128;
        let gq = spec_frames_by_channel(kq, bq);
        lemma_groups_hold_channel_data(kq, bq, c);
        assert(gq.contains_key(c));
        let l = choose|l: int| 0 <= l < q.len() && #[trigger] q[l].id == c as u64;
        assert(q[l].id == c as u64);
        assert(p[k].id == c as u64);
        let fp = p[k].blocks@[0].frames@;
        let fq = q[l].blocks@[0].frames@;
        assert(fp.map_values(|f: Frame| frame_view(f)) == gp[c]);
        assert(fq.map_values(|f: Frame| frame_view(f)) == gq[c]);
        assert(block_datas(fp) =~= frame_datas(gp[c]));
        assert(block_datas(fq) =~= frame_datas(gq[c]));
        assert(subseq_by(block_datas(fp), block_datas(fq), idx));
        assert(is_subsequence(block_datas(fp), block_datas(fq)));
        lemma_subseq_len(block_datas(fp), block_datas(fq), idx);
    l
}

/// Whether channel `ch` stands in `channels` with the same id, its first block's frame
/// bytes a subsequence of those there.
pub open spec fn frames_kept_in(ch: Channel, channels: Seq<Channel>) -> bool {
    exists|l: int|
        0 <= l < channels.len() && (#[trigger] channels[l]).id == ch.id && is_subsequence(
            block_datas(ch.blocks@[0].frames@),
            block_datas(channels[l].blocks@[0].frames@),
        ) && ch.blocks@[0].frames@.len() <= channels[l].blocks@[0].frames@.len()
}

proof fn lemma_subseq_len<A>(a: Seq<A>, b: Seq<A>, idx: Seq<int>)
    requires
        subseq_by(a, b, idx),
    ensures
        a.len() <= b.len(),
{
    assert forall|k: int| 0 <= k < idx.len() implies k <= #[trigger] idx[k] by {
        lemma_subseq_index_at_least(a, b, idx, k);
    }
    if a.len() > 0 {
        assert(a.len() - 1 <= idx[a.len() - 1]);
    }
}

proof fn lemma_subseq_index_at_least<A>(a: Seq<A>, b: Seq<A>, idx: Seq<int>, k: int)
    requires
        subseq_by(a, b, idx),
        0 <= k < idx.len(),
    ensures
        k <= idx[k],
    decreases k,
{
    if k > 0 {
        lemma_subseq_index_at_least(a, b, idx, k - 1);
        assert(idx[k - 1] < idx[k]);
    }
}

/// Zero suppression only drops whole frames: for the same board events, every channel
/// of the point built with some blocks suppressed is a channel of the point built with
/// all blocks kept, and its frames' bytes are a subsequence of those there.
pub proof fn lemma_suppression_drops_whole_frames(
    p: Seq<Channel>,
    q: Seq<Channel>,
    events: Seq<AdcEvent>,
    keep: Seq<Vec<bool>>,
    all: Seq<Vec<bool>>,
)
    requires
        flags_fit(events, keep),
        flags_fit(events, all),
        forall|i: int, j: int| 0 <= i < events.len() && 0 <= j < all[i]@.len() ==> #[trigger] all[i]@[j],
        point_of_events(p, events, keep),
        point_of_events(q, events, all),
    ensures
        forall|k: int| 0 <= k < p.len() ==> frames_kept_in(#[trigger] p[k], q),
{
    assert forall|k: int| 0 <= k < p.len() implies frames_kept_in(#[trigger] p[k], q) by {
        let l = lemma_channel_kept_in_full(p, q, events, keep, all, k);
        assert(q[l].id == p[k].id);
    }
}

} // verus!
