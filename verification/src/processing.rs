//! Assembling the per-channel frames of a point into detector events: grouping by
//! time, the dead-time filter and the merging of neighbouring channels.
use vstd::prelude::*;
use std::collections::BTreeMap;
use vstd::std_specs::iter::IteratorSpec;
use vstd::std_specs::cmp::OrdSpec;
use crate::point::{Point, Channel, Block, Frame};

verus! {

/// Frames grouped by time, then by channel; of two entries with the same time and
/// channel the later one stands.
pub open spec fn spec_group_by_time<T>(entries: Seq<(u64, usize, T)>) -> Map<u64, Map<usize, T>>
    decreases entries.len(),
{
    if entries.len() == 0 {
        Map::empty()
    } else {
        let g = spec_group_by_time(entries.drop_last());
        let (t, c, v) = entries.last();
        let inner = if g.contains_key(t) {
            g[t]
        } else {
            Map::empty()
        };
        g.insert(t, inner.insert(c, v))
    }
}

/// The view of a map of maps.
pub open spec fn nested_view<T>(m: Map<u64, BTreeMap<usize, T>>) -> Map<u64, Map<usize, T>> {
    Map::new(|t: u64| m.contains_key(t), |t: u64| m[t]@)
}

/// Groups `(time, channel, value)` entries by time and channel, the later of two
/// entries with the same time and channel replacing the earlier.
pub fn group_by_time<T: Copy>(entries: &[(u64, usize, T)]) -> (r: BTreeMap<u64, BTreeMap<usize, T>>)
    ensures
        nested_view(r@) == spec_group_by_time(entries@),
{
    let mut groups: BTreeMap<u64, BTreeMap<usize, T>> = BTreeMap::new();
    let mut i: usize = 0;
    assert(nested_view(groups@) =~= spec_group_by_time(entries@.take(0)));
    while i < entries.len()
        invariant
            i <= entries@.len(),
            nested_view(groups@) == spec_group_by_time(entries@.take(i as int)),
        decreases entries@.len() - i,
    {
        let (t, c, v) = entries[i];
        let ghost before = nested_view(groups@);
        let mut inner = match groups.remove(&t) {
            Some(m) => m,
            None => BTreeMap::new(),
        };
        inner.insert(c, v);
        groups.insert(t, inner);
        assert(entries@.take(i + 1).drop_last() =~= entries@.take(i as int));
        assert(entries@.take(i + 1).last() == entries@[i as int]);
        assert(nested_view(groups@) =~= spec_group_by_time(entries@.take(i + 1)));
        i += 1;
    }
    assert(entries@.take(entries@.len() as int) =~= entries@);
    groups
}

/// The keys of a map in increasing order.
pub fn sorted_keys<V>(m: &BTreeMap<u64, V>) -> (r: Vec<u64>)
    ensures
        r@.to_set() == m@.dom(),
        forall|i: int, j: int| 0 <= i < j < r@.len() ==> r@[i] < r@[j],
{
    let ghost ks = vstd::std_specs::btree::spec_keys_iter(m).remaining();
    let mut out: Vec<u64> = Vec::new();
    for k in it: m.keys()
        invariant
            it.seq() == ks,
            out@.len() == it.index(),
            forall|i: int| 0 <= i < it.index() ==> out@[i] == *ks[i],
    {
        out.push(*k);
    }
    proof {
        assert(out@ =~= ks.map_values(|x: &u64| *x));
        assert(ks.unref() == ks.map_values(|x: &u64| *x));
        vstd::std_specs::btree::axiom_spec_keys_iter(m);
        assert(vstd::laws_cmp::obeys_cmp::<u64>());
        assert(vstd::laws_cmp::obeys_cmp::<&u64>());
        vstd::std_specs::btree::axiom_increasing_seq_meaning(ks);
        assert(vstd::std_specs::btree::increasing_seq(ks));
        assert forall|i: int, j: int| 0 <= i < j < out@.len() implies out@[i] < out@[j] by {
            assert(OrdSpec::cmp_spec(&ks[i], &ks[j]) is Less);
        }
    }
    out
}

/// The frames of a block, each with the id of its channel.
pub open spec fn block_frames(id: u64, frames: Seq<Frame>) -> Seq<(u64, Frame)> {
    Seq::new(frames.len(), |i: int| (id, frames[i]))
}

/// The frames of a channel's blocks in order, each with the channel id.
pub open spec fn channel_frames(id: u64, blocks: Seq<Block>) -> Seq<(u64, Frame)>
    decreases blocks.len(),
{
    if blocks.len() == 0 {
        Seq::empty()
    } else {
        channel_frames(id, blocks.drop_last()) + block_frames(id, blocks.last().frames@)
    }
}

/// All frames of a point, channel by channel and block by block, each with the id of
/// its channel.
pub open spec fn point_frames(channels: Seq<Channel>) -> Seq<(u64, Frame)>
    decreases channels.len(),
{
    if channels.len() == 0 {
        Seq::empty()
    } else {
        point_frames(channels.drop_last()) + channel_frames(
            channels.last().id,
            channels.last().blocks@,
        )
    }
}

/// The frames of a point in the order in which they are stored, each with its
/// channel id.
pub fn frames_of_point<'a>(point: &'a Point) -> (r: Vec<(u64, &'a Frame)>)
    ensures
        r@.len() == point_frames(point.channels@).len(),
        forall|i: int|
            0 <= i < r@.len() ==> (#[trigger] r@[i]).0 == point_frames(point.channels@)[i].0
                && *r@[i].1 == point_frames(point.channels@)[i].1,
{
    let mut out: Vec<(u64, &'a Frame)> = Vec::new();
    let mut c: usize = 0;
    while c < point.channels.len()
        invariant
            c <= point.channels@.len(),
            out@.len() == point_frames(point.channels@.take(c as int)).len(),
            forall|i: int|
                0 <= i < out@.len() ==> (#[trigger] out@[i]).0 == point_frames(
                    point.channels@.take(c as int),
                )[i].0 && *out@[i].1 == point_frames(point.channels@.take(c as int))[i].1,
        decreases point.channels@.len() - c,
    {
        let channel = &point.channels[c];
        let ghost prefix = point_frames(point.channels@.take(c as int));
        let ghost start = out@.len();
        let mut b: usize = 0;
        while b < channel.blocks.len()
            invariant
                channel == point.channels@[c as int],
                b <= channel.blocks@.len(),
                start == prefix.len(),
                out@.len() == start + channel_frames(channel.id, channel.blocks@.take(b as int)).len(),
                forall|i: int|
                    0 <= i < start ==> (#[trigger] out@[i]).0 == prefix[i].0 && *out@[i].1 == prefix[i].1,
                forall|i: int|
                    start <= i < out@.len() ==> (#[trigger] out@[i]).0 == channel_frames(
                        channel.id,
                        channel.blocks@.take(b as int),
                    )[i - start].0 && *out@[i].1 == channel_frames(
                        channel.id,
                        channel.blocks@.take(b as int),
                    )[i - start].1,
            decreases channel.blocks@.len() - b,
        {
            let block = &channel.blocks[b];
            let ghost cprefix = channel_frames(channel.id, channel.blocks@.take(b as int));
            let ghost bstart = out@.len();
            let mut f: usize = 0;
            while f < block.frames.len()
                invariant
                    block == channel.blocks@[b as int],
                    f <= block.frames@.len(),
                    bstart == start + cprefix.len(),
                    out@.len() == bstart + f,
                    forall|i: int|
                        0 <= i < start ==> (#[trigger] out@[i]).0 == prefix[i].0 && *out@[i].1
                            == prefix[i].1,
                    forall|i: int|
                        start <= i < bstart ==> (#[trigger] out@[i]).0 == cprefix[i - start].0
                            && *out@[i].1 == cprefix[i - start].1,
                    forall|i: int|
                        bstart <= i < out@.len() ==> (#[trigger] out@[i]).0 == channel.id
                            && *out@[i].1 == block.frames@[i - bstart],
                decreases block.frames@.len() - f,
            {
                out.push((channel.id, &block.frames[f]));
                f += 1;
            }
            let ghost next = channel_frames(channel.id, channel.blocks@.take(b + 1));
            assert(channel.blocks@.take(b + 1).drop_last() =~= channel.blocks@.take(b as int));
            assert(next == cprefix + block_frames(channel.id, block.frames@));
            b += 1;
        }
        assert(channel.blocks@.take(channel.blocks@.len() as int) =~= channel.blocks@);
        assert(point.channels@.take(c + 1).drop_last() =~= point.channels@.take(c as int));
        assert(point_frames(point.channels@.take(c + 1)) == prefix + channel_frames(
            channel.id,
            channel.blocks@,
        ));
        c += 1;
    }
    assert(point.channels@.take(point.channels@.len() as int) =~= point.channels@);
    out
}

/// The distance between two times.
pub open spec fn time_distance(a: u64, b: u64) -> int {
    if a >= b {
        a - b
    } else {
        b - a
    }
}

/// Which events of a time-ordered sequence the dead-time filter keeps: with the
/// filter on, an event closer than `dead_time` to the last kept one (the first is
/// measured from time zero) is dropped.
pub open spec fn spec_dead_time_keep(times: Seq<u64>, use_dead_time: bool, dead_time: u64, last: u64) -> Seq<
    bool,
>
    decreases times.len(),
{
    if times.len() == 0 {
        Seq::empty()
    } else {
        let t = times[0];
        if use_dead_time && time_distance(last, t) < dead_time {
            seq![false] + spec_dead_time_keep(times.drop_first(), use_dead_time, dead_time, last)
        } else {
            seq![true] + spec_dead_time_keep(times.drop_first(), use_dead_time, dead_time, t)
        }
    }
}

/// For each event time, in the order given, whether the dead-time filter keeps it.
pub fn dead_time_filter(times: &[u64], use_dead_time: bool, dead_time: u64) -> (r: Vec<bool>)
    ensures
        r@ == spec_dead_time_keep(times@, use_dead_time, dead_time, 0),
{
    let mut out: Vec<bool> = Vec::new();
    let mut last: u64 = 0;
    let mut i: usize = 0;
    assert(times@.skip(0) =~= times@);
    while i < times.len()
        invariant
            i <= times@.len(),
            out@ + spec_dead_time_keep(times@.skip(i as int), use_dead_time, dead_time, last)
                == spec_dead_time_keep(times@, use_dead_time, dead_time, 0),
        decreases times@.len() - i,
    {
        let t = times[i];
        let ghost rest = times@.skip(i as int);
        assert(rest[0] == t);
        assert(rest.drop_first() =~= times@.skip(i + 1));
        let d: u64 = if last >= t {
            last - t
        } else {
            t - last
        };
        if use_dead_time && d < dead_time {
            assert(out@.push(false) + spec_dead_time_keep(times@.skip(i + 1), use_dead_time, dead_time, last)
                =~= out@ + spec_dead_time_keep(rest, use_dead_time, dead_time, last));
            out.push(false);
        } else {
            assert(out@.push(true) + spec_dead_time_keep(times@.skip(i + 1), use_dead_time, dead_time, t)
                =~= out@ + spec_dead_time_keep(rest, use_dead_time, dead_time, last));
            out.push(true);
            last = t;
        }
        i += 1;
    }
    assert(spec_dead_time_keep(times@.skip(i as int), use_dead_time, dead_time, last) =~= Seq::<bool>::empty());
    assert(out@ + Seq::<bool>::empty() =~= out@);
    out
}

/// With the filter off every event is kept.
pub proof fn lemma_dead_time_off_keeps_all(times: Seq<u64>, dead_time: u64, last: u64)
    ensures
        spec_dead_time_keep(times, false, dead_time, last) == Seq::new(times.len(), |i: int| true),
        spec_dead_time_keep(times, false, dead_time, last).len() == times.len(),
    decreases times.len(),
{
    if times.len() > 0 {
        lemma_dead_time_off_keeps_all(times.drop_first(), dead_time, times[0]);
        assert(spec_dead_time_keep(times, false, dead_time, last) =~= Seq::new(times.len(), |i: int| true));
    }
}

/// The filter decides once for each event.
pub proof fn lemma_dead_time_len(times: Seq<u64>, use_dead_time: bool, dead_time: u64, last: u64)
    ensures
        spec_dead_time_keep(times, use_dead_time, dead_time, last).len() == times.len(),
    decreases times.len(),
{
    if times.len() > 0 {
        lemma_dead_time_len(times.drop_first(), use_dead_time, dead_time, last);
        lemma_dead_time_len(times.drop_first(), use_dead_time, dead_time, times[0]);
    }
}

/// The time of the last event kept before event `k`, or `last` when none was.
pub open spec fn last_kept_before(times: Seq<u64>, keep: Seq<bool>, k: int, last: u64) -> u64
    decreases k,
{
    if k <= 0 {
        last
    } else if keep[k - 1] {
        times[k - 1]
    } else {
        last_kept_before(times, keep, k - 1, last)
    }
}

proof fn lemma_last_kept_shift(times: Seq<u64>, dead_time: u64, last: u64, k: int)
    requires
        1 <= k <= times.len(),
    ensures
        ({
            let keep = spec_dead_time_keep(times, true, dead_time, last);
            let next_last = if keep[0] {
                times[0]
            } else {
                last
            };
            last_kept_before(times, keep, k, last) == last_kept_before(
                times.drop_first(),
                spec_dead_time_keep(times.drop_first(), true, dead_time, next_last),
                k - 1,
                next_last,
            )
        }),
    decreases k,
{
    let keep = spec_dead_time_keep(times, true, dead_time, last);
    let next_last = if keep[0] {
        times[0]
    } else {
        last
    };
    let rest = spec_dead_time_keep(times.drop_first(), true, dead_time, next_last);
    lemma_dead_time_len(times.drop_first(), true, dead_time, next_last);
    assert(keep == seq![keep[0]] + rest);
    if k > 1 {
        lemma_last_kept_shift(times, dead_time, last, k - 1);
        assert(keep[k - 1] == rest[k - 2]);
        assert(times[k - 1] == times.drop_first()[k - 2]);
        assert(last_kept_before(times.drop_first(), rest, k - 1, next_last) == if rest[k - 2] {
            times.drop_first()[k - 2]
        } else {
            last_kept_before(times.drop_first(), rest, k - 2, next_last)
        });
    } else {
        assert(last_kept_before(times, keep, 0, last) == last);
        assert(last_kept_before(times.drop_first(), rest, 0, next_last) == next_last);
    }
}

/// With the filter on, every kept event lies at least `dead_time` from the event
/// kept before it (the first kept one from `last`, time zero for the filter).
pub proof fn lemma_dead_time_spacing(times: Seq<u64>, dead_time: u64, last: u64)
    ensures
        forall|k: int|
            0 <= k < times.len() && #[trigger] spec_dead_time_keep(times, true, dead_time, last)[k]
                ==> time_distance(
                last_kept_before(times, spec_dead_time_keep(times, true, dead_time, last), k, last),
                times[k],
            ) >= dead_time,
    decreases times.len(),
{
    if times.len() > 0 {
        let keep = spec_dead_time_keep(times, true, dead_time, last);
        let next_last = if keep[0] {
            times[0]
        } else {
            last
        };
        let rest = spec_dead_time_keep(times.drop_first(), true, dead_time, next_last);
        lemma_dead_time_spacing(times.drop_first(), dead_time, next_last);
        lemma_dead_time_len(times.drop_first(), true, dead_time, next_last);
        assert(keep == seq![keep[0]] + rest);
        assert forall|k: int| 0 <= k < times.len() && #[trigger] keep[k] implies time_distance(
            last_kept_before(times, keep, k, last),
            times[k],
        ) >= dead_time by {
            if k > 0 {
                lemma_last_kept_shift(times, dead_time, last, k);
                assert(keep[k] == rest[k - 1]);
                assert(times[k] == times.drop_first()[k - 1]);
            }
        }
    }
}

proof fn lemma_usize_keys_ordered()
    ensures
        vstd::laws_cmp::obeys_cmp::<usize>(),
{
}

/// The number of detector channels that merging considers.
pub const MERGE_CHANNELS: usize = 7;

/// The merges of neighbouring channels in one event, from the pair `p` on (pairs are
/// taken in the order `(0,0), (0,1), .., (6,6)`): a pair `(into, from)` is merged when
/// the map enables it and both channels are still present, and `from` is then gone.
/// Returns the channels left and the merges made, in order.
pub open spec fn spec_merge_plan(merge_map: [[bool; 7]; 7], present: Set<usize>, p: int) -> (Set<
    usize,
>, Seq<(usize, usize)>)
    decreases 49 - p,
{
    if p < 0 || p >= 49 {
        (present, Seq::empty())
    } else {
        let into = (p / 7) as usize;
        let from = (p % 7) as usize;
        if merge_map@[into as int]@[from as int] && present.contains(into) && present.contains(
            from,
        ) {
            let rest = spec_merge_plan(merge_map, present.remove(from), p + 1);
            (rest.0, seq![(into, from)] + rest.1)
        } else {
            spec_merge_plan(merge_map, present, p + 1)
        }
    }
}

/// Whether pair `x` comes before pair `y` in row-major order: by `into`, then `from`.
pub open spec fn pair_before(x: (usize, usize), y: (usize, usize)) -> bool {
    x.0 < y.0 || (x.0 == y.0 && x.1 < y.1)
}

/// Whether channel `c` of an event is still there when the pair `pair` is reached: it
/// was present and no merge of an earlier pair took it away.
pub open spec fn present_at(present: Set<usize>, ops: Seq<(usize, usize)>, pair: (usize, usize), c: usize) -> bool {
    &&& present.contains(c)
    &&& forall|k: int| 0 <= k < ops.len() && pair_before(#[trigger] ops[k], pair) ==> ops[k].1 != c
}

proof fn lemma_merge_plan_from(merge_map: [[bool; 7]; 7], cur: Set<usize>, p: int)
    requires
        0 <= p <= 49,
    ensures
        ({
            let ops = spec_merge_plan(merge_map, cur, p).1;
            &&& forall|i: int|
                0 <= i < ops.len() ==> (#[trigger] ops[i]).0 < 7 && ops[i].1 < 7 && ops[i].0 * 7 + ops[i].1 >= p
            &&& forall|i: int, j: int| 0 <= i < j < ops.len() ==> pair_before(#[trigger] ops[i], #[trigger] ops[j])
            &&& forall|i: int|
                0 <= i < ops.len() ==> merge_map@[(#[trigger] ops[i]).0 as int]@[ops[i].1 as int] && present_at(
                    cur,
                    ops,
                    ops[i],
                    ops[i].0,
                ) && present_at(cur, ops, ops[i], ops[i].1)
            &&& forall|a: usize, b: usize|
                a < 7 && b < 7 && a * 7 + b >= p && merge_map@[a as int]@[b as int] && present_at(
                    cur,
                    ops,
                    (a, b),
                    a,
                ) && present_at(cur, ops, (a, b), b) ==> #[trigger] ops.contains((a, b))
        }),
    decreases 49 - p,
{
    let ops = spec_merge_plan(merge_map, cur, p).1;
    if p == 49 {
        assert forall|a: usize, b: usize|
            a < 7 && b < 7 && a * 7 + b >= p && merge_map@[a as int]@[b as int] && present_at(
                cur,
                ops,
                (a, b),
                a,
            ) && present_at(cur, ops, (a, b), b) implies #[trigger] ops.contains((a, b)) by {
            assert(a * 7 + b <= 48);
        }
        return;
    }
    let into = (p / 7) as usize;
    let from = (p % 7) as usize;
    assert(into * 7 + from == p && into < 7 && from < 7);
    let merged = merge_map@[into as int]@[from as int] && cur.contains(into) && cur.contains(from);
    let next = if merged {
        cur.remove(from)
    } else {
        cur
    };
    lemma_merge_plan_from(merge_map, next, p + 1);
    let rest = spec_merge_plan(merge_map, next, p + 1).1;
    if merged {
        assert(ops == seq![(into, from)] + rest);
        assert forall|i: int| 0 <= i < ops.len() implies (#[trigger] ops[i]).0 < 7 && ops[i].1 < 7 && ops[i].0
            * 7 + ops[i].1 >= p by {
            if i > 0 {
                assert(ops[i] == rest[i - 1]);
            }
        }
        assert forall|i: int, j: int| 0 <= i < j < ops.len() implies pair_before(
            #[trigger] ops[i],
            #[trigger] ops[j],
        ) by {
            assert(ops[j] == rest[j - 1]);
            if i > 0 {
                assert(ops[i] == rest[i - 1]);
            } else {
                let r = rest[j - 1];
                assert(r.0 * 7 + r.1 >= p + 1);
            }
        }
        assert forall|i: int| 0 <= i < ops.len() implies merge_map@[(#[trigger] ops[i]).0 as int]@[ops[i].1
            as int] && present_at(cur, ops, ops[i], ops[i].0) && present_at(cur, ops, ops[i], ops[i].1) by {
            if i == 0 {
                assert forall|k: int| 0 <= k < ops.len() && pair_before(#[trigger] ops[k], ops[0]) implies ops[k].1
                    != into && ops[k].1 != from by {
                    if k > 0 {
                        let r = rest[k - 1];
                        assert(ops[k] == r);
                        assert(r.0 * 7 + r.1 >= p + 1);
                    }
                }
            } else {
                let op = rest[i - 1];
                assert(ops[i] == op);
                assert(present_at(next, rest, op, op.0) && present_at(next, rest, op, op.1));
                assert forall|k: int| 0 <= k < ops.len() && pair_before(#[trigger] ops[k], op) implies ops[k].1
                    != op.0 && ops[k].1 != op.1 by {
                    if k > 0 {
                        assert(ops[k] == rest[k - 1]);
                    }
                }
            }
        }
        assert forall|a: usize, b: usize|
            a < 7 && b < 7 && a * 7 + b >= p && merge_map@[a as int]@[b as int] && present_at(
                cur,
                ops,
                (a, b),
                a,
            ) && present_at(cur, ops, (a, b), b) implies #[trigger] ops.contains((a, b)) by {
            if a * 7 + b == p {
                assert(a == into && b == from);
                assert(ops[0] == (a, b));
            } else {
                assert(pair_before(ops[0], (a, b)));
                assert(ops[0].1 != a && ops[0].1 != b);
                assert forall|k: int| 0 <= k < rest.len() && pair_before(#[trigger] rest[k], (a, b)) implies rest[k].1
                    != a && rest[k].1 != b by {
                    assert(ops[k + 1] == rest[k]);
                }
                assert(present_at(next, rest, (a, b), a) && present_at(next, rest, (a, b), b));
                assert(rest.contains((a, b)));
                let k = choose|k: int| 0 <= k < rest.len() && rest[k] == (a, b);
                assert(ops[k + 1] == (a, b));
            }
        }
    } else {
        assert(ops == rest);
        assert forall|a: usize, b: usize|
            a < 7 && b < 7 && a * 7 + b >= p && merge_map@[a as int]@[b as int] && present_at(
                cur,
                ops,
                (a, b),
                a,
            ) && present_at(cur, ops, (a, b), b) implies #[trigger] ops.contains((a, b)) by {
            if a * 7 + b == p {
                assert(a == into && b == from);
            } else {
                assert(rest.contains((a, b)));
            }
        }
    }
}

/// Merges follow the pairs in row-major order: the merges come in increasing
/// `(into, from)` order; each is enabled by the map with both channels still there
/// when its pair is reached; and every pair the map enables whose channels are both
/// still there when it is reached is merged.
pub proof fn lemma_merge_plan_row_major(merge_map: [[bool; 7]; 7], present: Set<usize>)
    ensures
        ({
            let ops = spec_merge_plan(merge_map, present, 0).1;
            &&& forall|i: int, j: int| 0 <= i < j < ops.len() ==> pair_before(#[trigger] ops[i], #[trigger] ops[j])
            &&& forall|i: int|
                0 <= i < ops.len() ==> (#[trigger] ops[i]).0 < 7 && ops[i].1 < 7 && merge_map@[ops[i].0 as int]@[ops[i].1
                    as int] && present_at(present, ops, ops[i], ops[i].0) && present_at(present, ops, ops[i], ops[i].1)
            &&& forall|a: usize, b: usize|
                a < 7 && b < 7 && merge_map@[a as int]@[b as int] && present_at(present, ops, (a, b), a)
                    && present_at(present, ops, (a, b), b) ==> #[trigger] ops.contains((a, b))
        }),
{
    lemma_merge_plan_from(merge_map, present, 0);
}

/// The merges to make in an event whose amplitudes by channel are `channels`: for each
/// `(into, from)` in order, the amplitude of `from` is added to that of `into` and
/// `from` is removed.
pub fn merge_plan<T>(merge_map: &[[bool; 7]; 7], channels: &BTreeMap<usize, T>) -> (r: Vec<(usize, usize)>)
    ensures
        r@ == spec_merge_plan(*merge_map, channels@.dom(), 0).1,
{
    let ghost init = channels@.dom();
    let mut present: Vec<bool> = Vec::new();
    let mut c: usize = 0;
    while c < MERGE_CHANNELS
        invariant
            c <= 7,
            init == channels@.dom(),
            present@.len() == c,
            forall|k: int| 0 <= k < c ==> present@[k] == init.contains(k as usize),
        decreases 7 - c,
    {
        proof {
            lemma_usize_keys_ordered();
        }
        let here = channels.contains_key(&c);
        present.push(here);
        c += 1;
    }
    let ghost mut cur = init;
    let mut ops: Vec<(usize, usize)> = Vec::new();
    let mut p: usize = 0;
    while p < 49
        invariant
            p <= 49,
            present@.len() == 7,
            forall|k: int| 0 <= k < 7 ==> present@[k] == cur.contains(k as usize),
            ops@ + spec_merge_plan(*merge_map, cur, p as int).1 == spec_merge_plan(*merge_map, init, 0).1,
        decreases 49 - p,
    {
        let into = p / 7;
        let from = p % 7;
        if merge_map[into][from] && present[into] && present[from] {
            let ghost rest = spec_merge_plan(*merge_map, cur.remove(from), p + 1);
            assert(ops@.push((into, from)) + rest.1 =~= ops@ + (seq![(into, from)] + rest.1));
            ops.push((into, from));
            present.set(from, false);
            proof {
                cur = cur.remove(from);
            }
        }
        p += 1;
    }
    assert(ops@ + Seq::<(usize, usize)>::empty() =~= ops@);
    ops
}

/// Merging never brings in a channel, and merges only pairs the map enables, into a
/// channel that is left present.
pub proof fn lemma_merge_plan_sound(merge_map: [[bool; 7]; 7], present: Set<usize>, p: int)
    ensures
        spec_merge_plan(merge_map, present, p).0.subset_of(present),
        forall|i: int|
            0 <= i < spec_merge_plan(merge_map, present, p).1.len() ==> {
                let (into, from) = #[trigger] spec_merge_plan(merge_map, present, p).1[i];
                &&& into < 7
                &&& from < 7
                &&& merge_map@[into as int]@[from as int]
                &&& present.contains(into)
                &&& present.contains(from)
            },
    decreases 49 - p,
{
    if 0 <= p < 49 {
        let into = (p / 7) as usize;
        let from = (p % 7) as usize;
        if merge_map@[into as int]@[from as int] && present.contains(into) && present.contains(
            from,
        ) {
            lemma_merge_plan_sound(merge_map, present.remove(from), p + 1);
        } else {
            lemma_merge_plan_sound(merge_map, present, p + 1);
        }
    }
}

/// The keys of a map with `u8` keys, in increasing order.
pub fn sorted_u8_keys<V>(m: &BTreeMap<u8, V>) -> (r: Vec<u8>)
    ensures
        r@.to_set() == m@.dom(),
        r@.no_duplicates(),
        forall|i: int, j: int| 0 <= i < j < r@.len() ==> r@[i] < r@[j],
{
    let ghost ks = vstd::std_specs::btree::spec_keys_iter(m).remaining();
    let mut out: Vec<u8> = Vec::new();
    for k in it: m.keys()
        invariant
            it.seq() == ks,
            out@.len() == it.index(),
            forall|i: int| 0 <= i < it.index() ==> out@[i] == *ks[i],
    {
        out.push(*k);
    }
    proof {
        assert(out@ =~= ks.map_values(|x: &u8| *x));
        assert(ks.unref() == ks.map_values(|x: &u8| *x));
        vstd::std_specs::btree::axiom_spec_keys_iter(m);
        assert(vstd::laws_cmp::obeys_cmp::<u8>());
        assert(vstd::laws_cmp::obeys_cmp::<&u8>());
        vstd::std_specs::btree::axiom_increasing_seq_meaning(ks);
        assert(out@.len() == ks.len());
        assert(forall|i: int, j: int| 0 <= i < j < ks.len() ==> #[trigger] OrdSpec::cmp_spec(&ks[i], &ks[j]) is Less);
        assert forall|i: int, j: int| 0 <= i < j < out@.len() implies out@[i] < out@[j] by {
            assert(OrdSpec::cmp_spec(&ks[i], &ks[j]) is Less);
        }
        assert forall|i: int, j: int| 0 <= i < out@.len() && 0 <= j < out@.len() && i != j implies out@[i] != out@[j] by {
            if i < j {
                assert(OrdSpec::cmp_spec(&ks[i], &ks[j]) is Less);
            } else {
                assert(OrdSpec::cmp_spec(&ks[j], &ks[i]) is Less);
            }
        }
    }
    out
}

} // verus!
