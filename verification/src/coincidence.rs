//! Stepping through recorded events in the event viewers, and picking out the events
//! in which several channels fired at once.
use vstd::prelude::*;
use std::collections::BTreeMap;

verus! {

/// A step of the viewer's event cursor (arrow keys and the `<` / `>` buttons).
#[derive(Debug, Clone, Copy, PartialEq, Eq, Structural)]
pub enum Step {
    Next,
    Previous,
}

/// The cursor after a step: it moves by one and stops at both ends of the list.
pub open spec fn spec_step(current: usize, len: usize, step: Step) -> usize {
    match step {
        Step::Next => if current + 1 < len {
            (current + 1) as usize
        } else {
            current
        },
        Step::Previous => if current > 0 {
            (current - 1) as usize
        } else {
            current
        },
    }
}

/// Moves the viewer's cursor over a list of `len` events. Stepping forward needs a
/// non-empty list (the last index is `len - 1`); a cursor inside the list stays inside.
pub fn step_current(current: usize, len: usize, step: Step) -> (r: usize)
    requires
        step == Step::Next ==> len > 0,
    ensures
        r == spec_step(current, len, step),
        current < len ==> r < len,
{
    match step {
        Step::Next => if current < len - 1 {
            current + 1
        } else {
            current
        },
        Step::Previous => if current > 0 {
            current - 1
        } else {
            current
        },
    }
}

/// Whether some channel occurs twice among the frames of one time.
pub open spec fn has_repeated_channel(chs: Seq<u8>) -> bool {
    exists|i: int, j: int| 0 <= i < j < chs.len() && chs[i] == chs[j]
}

/// A cross: frames of at least two channels at one time, no channel twice.
pub open spec fn spec_is_cross(chs: Seq<u8>) -> bool {
    chs.len() > 1 && !has_repeated_channel(chs)
}

/// The channels of the frames recorded at one time.
pub open spec fn channels_of<T>(entries: Seq<(u8, T)>) -> Seq<u8> {
    entries.map_values(|e: (u8, T)| e.0)
}

/// Whether the frames recorded at one time (each with its channel) make a cross.
pub fn is_cross<T>(entries: &[(u8, T)]) -> (r: bool)
    ensures
        r == spec_is_cross(channels_of(entries@)),
{
    let ghost chs = channels_of(entries@);
    let n = entries.len();
    if n <= 1 {
        return false;
    }
    let mut i: usize = 0;
    while i + 1 < n
        invariant
            n == entries@.len(),
            chs == channels_of(entries@),
            n > 1,
            i < n,
            forall|a: int, b: int| 0 <= a < i && a < b < n ==> chs[a] != chs[b],
        decreases n - i,
    {
        let mut j: usize = i + 1;
        while j < n
            invariant
                n == entries@.len(),
                chs == channels_of(entries@),
                i < j <= n,
                forall|a: int, b: int| 0 <= a < i && a < b < n ==> chs[a] != chs[b],
                forall|b: int| i < b < j ==> chs[i as int] != chs[b],
            decreases n - j,
        {
            if entries[i].0 == entries[j].0 {
                assert(has_repeated_channel(chs)) by {
                    assert(0 <= i < j < n && chs[i as int] == chs[j as int]);
                }
                return false;
            }
            j += 1;
        }
        i += 1;
    }
    assert(!has_repeated_channel(chs)) by {
        assert forall|a: int, b: int| 0 <= a < b < n implies chs[a] != chs[b] by {
            assert(a <= i);
        }
    }
    true
}

/// Whether every channel of a cross is enabled in the viewer's channel filter.
pub open spec fn all_enabled(chs: Seq<u8>, enabled: [bool; 7]) -> bool {
    forall|k: int| 0 <= k < chs.len() ==> enabled@[#[trigger] chs[k] as int]
}

/// The viewer's channel filter: a cross is shown when all its channels are enabled.
/// Channels are the detector's seven (`0..7`).
pub fn channels_enabled<T>(entries: &[(u8, T)], enabled: &[bool; 7]) -> (r: bool)
    requires
        forall|k: int| 0 <= k < entries@.len() ==> (#[trigger] entries@[k]).0 < 7,
    ensures
        r == all_enabled(channels_of(entries@), *enabled),
{
    let ghost chs = channels_of(entries@);
    let mut k: usize = 0;
    while k < entries.len()
        invariant
            k <= entries@.len(),
            chs == channels_of(entries@),
            forall|m: int| 0 <= m < entries@.len() ==> (#[trigger] entries@[m]).0 < 7,
            forall|m: int| 0 <= m < k ==> enabled@[#[trigger] chs[m] as int],
        decreases entries@.len() - k,
    {
        let ch = entries[k].0;
        if !enabled[ch as usize] {
            assert(chs[k as int] == ch);
            return false;
        }
        k += 1;
    }
    true
}

/// The crosses shown by the viewer's channel filter: the positions, in order, of the
/// crosses whose channels are all enabled. Channels are the detector's seven.
pub fn enabled_crosses<T>(crosses: &[Vec<(u8, T)>], enabled: &[bool; 7]) -> (r: Vec<usize>)
    requires
        forall|k: int, m: int|
            0 <= k < crosses@.len() && 0 <= m < crosses@[k]@.len() ==> (#[trigger] crosses@[k]@[m]).0 < 7,
    ensures
        forall|i: int, j: int| 0 <= i < j < r@.len() ==> r@[i] < r@[j],
        forall|k: usize|
            r@.contains(k) <==> k < crosses@.len() && all_enabled(
                channels_of(#[trigger] crosses@[k as int]@),
                *enabled,
            ),
{
    let mut out: Vec<usize> = Vec::new();
    let mut k: usize = 0;
    while k < crosses.len()
        invariant
            k <= crosses@.len(),
            forall|a: int, m: int|
                0 <= a < crosses@.len() && 0 <= m < crosses@[a]@.len() ==> (#[trigger] crosses@[a]@[m]).0 < 7,
            forall|i: int, j: int| 0 <= i < j < out@.len() ==> out@[i] < out@[j],
            forall|i: int| 0 <= i < out@.len() ==> out@[i] < k,
            forall|a: usize|
                out@.contains(a) <==> a < k && all_enabled(
                    channels_of(#[trigger] crosses@[a as int]@),
                    *enabled,
                ),
        decreases crosses@.len() - k,
    {
        let cross = &crosses[k];
        assert forall|m: int| 0 <= m < cross@.len() implies (#[trigger] cross@[m]).0 < 7 by {
            assert(crosses@[k as int]@[m] == cross@[m]);
        }
        let ghost before = out@;
        if channels_enabled(cross.as_slice(), enabled) {
            out.push(k);
        }
        assert forall|a: usize|
            out@.contains(a) <==> a < k + 1 && all_enabled(
                channels_of(#[trigger] crosses@[a as int]@),
                *enabled,
            ) by {
            if out@.contains(a) && a != k {
                let i = choose|i: int| 0 <= i < out@.len() && out@[i] == a;
                assert(before[i] == a);
                assert(before.contains(a));
            }
            if a < k && before.contains(a) {
                let i = choose|i: int| 0 <= i < before.len() && before[i] == a;
                assert(out@[i] == a);
            }
            if a == k && all_enabled(channels_of(crosses@[a as int]@), *enabled) {
                assert(out@[out@.len() - 1] == k);
            }
            if a == k && out@.contains(a) {
                if !all_enabled(channels_of(crosses@[a as int]@), *enabled) {
                    let i = choose|i: int| 0 <= i < out@.len() && out@[i] == a;
                    assert(out@ == before);
                    assert(before[i] < k);
                }
            }
        }
        k += 1;
    }
    out
}

/// The frames of each of the detector's seven channels among the channel ids given:
/// `r[c]` counts the ids equal to `c`.
pub fn channel_counts(ids: &[u64]) -> (r: [usize; 7])
    requires
        forall|k: int| 0 <= k < ids@.len() ==> ids@[k] < 7,
    ensures
        forall|c: int| 0 <= c < 7 ==> r@[c] == ids@.to_multiset().count(c as u64),
{
    let mut counts: [usize; 7] = [0; 7];
    let mut k: usize = 0;
    proof {
        broadcast use vstd::seq_lib::group_to_multiset_ensures;

        assert(ids@.take(0) =~= Seq::<u64>::empty());
    }
    while k < ids.len()
        invariant
            k <= ids@.len(),
            forall|m: int| 0 <= m < ids@.len() ==> ids@[m] < 7,
            forall|c: int| 0 <= c < 7 ==> counts@[c] == ids@.take(k as int).to_multiset().count(c as u64),
            forall|c: int| 0 <= c < 7 ==> counts@[c] <= k,
        decreases ids@.len() - k,
    {
        let id = ids[k] as usize;
        proof {
            broadcast use vstd::seq_lib::group_to_multiset_ensures;

            assert(ids@.take(k + 1) =~= ids@.take(k as int).push(ids@[k as int]));
        }
        counts[id] = counts[id] + 1;
        k += 1;
    }
    assert(ids@.take(ids@.len() as int) =~= ids@);
    counts
}

/// The neighbouring channel pairs (one-based) whose double crosses are counted as
/// events shared over a border between two pixels.
pub open spec fn is_border_pair(a: u8, b: u8) -> bool {
    ||| a == 1 && (b == 3 || b == 4 || b == 7)
    ||| a == 2 && (b == 3 || b == 5 || b == 7)
    ||| a == 3 && b == 4
    ||| a == 4 && b == 5
}

/// Whether the frames of one time are a double on a border: exactly two frames whose
/// one-based channels, in increasing order, are a neighbouring pair.
pub open spec fn spec_is_border_double(chs: Seq<u8>) -> bool {
    chs.len() == 2 && {
        let a = (chs[0] + 1) as u8;
        let b = (chs[1] + 1) as u8;
        if a < b {
            is_border_pair(a, b)
        } else {
            is_border_pair(b, a)
        }
    }
}

/// The neighbouring pixel pairs of the detector (one-based, smaller first).
pub open spec fn border_table() -> Seq<(int, int)> {
    seq![(1int, 3int), (1, 4), (1, 7), (2, 3), (2, 5), (2, 7), (3, 4), (4, 5)]
}

/// A two-frame event is a border double exactly when its one-based channels, smaller
/// first, are one of the pairs of the border table.
pub proof fn lemma_border_double_table(chs: Seq<u8>)
    requires
        chs.len() == 2 ==> chs[0] < 255 && chs[1] < 255,
    ensures
        spec_is_border_double(chs) <==> chs.len() == 2 && ({
            let a = chs[0] + 1;
            let b = chs[1] + 1;
            border_table().contains(if a < b { (a, b) } else { (b, a) })
        }),
{
    let t = border_table();
    assert(t[0] == (1int, 3int) && t[1] == (1int, 4int) && t[2] == (1int, 7int) && t[3] == (2int, 3int));
    assert(t[4] == (2int, 5int) && t[5] == (2int, 7int) && t[6] == (3int, 4int) && t[7] == (4int, 5int));
    assert(t.len() == 8);
    if chs.len() == 2 {
        let a = chs[0] + 1;
        let b = chs[1] + 1;
        let pr = if a < b { (a, b) } else { (b, a) };
        if t.contains(pr) {
            let k = choose|k: int| 0 <= k < t.len() && t[k] == pr;
            assert(0 <= k < 8);
        }
    }
}

/// Whether a cross is a double on a border between neighbouring pixels. The one-based
/// channel numbers must fit in a byte.
pub fn is_border_double<T>(entries: &[(u8, T)]) -> (r: bool)
    requires
        entries@.len() == 2 ==> entries@[0].0 < 255 && entries@[1].0 < 255,
    ensures
        r == spec_is_border_double(channels_of(entries@)),
{
    if entries.len() != 2 {
        return false;
    }
    let a = entries[0].0 + 1;
    let b = entries[1].0 + 1;
    let (lo, hi) = if a < b {
        (a, b)
    } else {
        (b, a)
    };
    (lo == 1 && (hi == 3 || hi == 4 || hi == 7)) || (lo == 2 && (hi == 3 || hi == 5 || hi == 7)) || (lo
        == 3 && hi == 4) || (lo == 4 && hi == 5)
}

/// The channel pair of a double cross, numbered from one and in increasing order:
/// `None` unless exactly two distinct channels fired.
pub open spec fn spec_cross_pair(chs: Seq<u8>) -> Option<(u8, u8)> {
    if chs.len() == 2 && chs[0] != chs[1] {
        let a = (chs[0] + 1) as u8;
        let b = (chs[1] + 1) as u8;
        if a < b {
            Some((a, b))
        } else {
            Some((b, a))
        }
    } else {
        None
    }
}

/// The channel pair of a double cross. The one-based channel numbers must fit in a
/// byte.
pub fn cross_pair<T>(entries: &[(u8, T)]) -> (r: Option<(u8, u8)>)
    requires
        entries@.len() == 2 && entries@[0].0 != entries@[1].0 ==> entries@[0].0 < 255 && entries@[1].0
            < 255,
    ensures
        r == spec_cross_pair(channels_of(entries@)),
{
    if entries.len() == 2 && entries[0].0 != entries[1].0 {
        let a = entries[0].0 + 1;
        let b = entries[1].0 + 1;
        if a < b {
            Some((a, b))
        } else {
            Some((b, a))
        }
    } else {
        None
    }
}

/// The frames of a point gathered by time: for each time, the `(channel, position)`
/// entries recorded at it, in the order given.
pub open spec fn spec_channels_by_time(entries: Seq<(u64, u8, usize)>) -> Map<u64, Seq<(u8, usize)>>
    decreases entries.len(),
{
    if entries.len() == 0 {
        Map::empty()
    } else {
        let m = spec_channels_by_time(entries.drop_last());
        let e = entries.last();
        let prev = if m.contains_key(e.0) {
            m[e.0]
        } else {
            Seq::empty()
        };
        m.insert(e.0, prev.push((e.1, e.2)))
    }
}

/// The view of the gathered frames.
pub open spec fn by_time_view(m: Map<u64, Vec<(u8, usize)>>) -> Map<u64, Seq<(u8, usize)>> {
    Map::new(|t: u64| m.contains_key(t), |t: u64| m[t]@)
}

proof fn lemma_time_keys_ordered()
    ensures
        vstd::laws_cmp::obeys_cmp::<u64>(),
{
}

/// Gathers the `(time, channel, position)` entries of a point's frames by time,
/// keeping every entry of a time in order.
pub fn channels_by_time(entries: &[(u64, u8, usize)]) -> (r: BTreeMap<u64, Vec<(u8, usize)>>)
    ensures
        by_time_view(r@) == spec_channels_by_time(entries@),
{
    let mut groups: BTreeMap<u64, Vec<(u8, usize)>> = BTreeMap::new();
    let mut i: usize = 0;
    assert(by_time_view(groups@) =~= spec_channels_by_time(entries@.take(0)));
    while i < entries.len()
        invariant
            i <= entries@.len(),
            by_time_view(groups@) == spec_channels_by_time(entries@.take(i as int)),
        decreases entries@.len() - i,
    {
        proof {
            lemma_time_keys_ordered();
        }
        let (t, ch, pos) = entries[i];
        let ghost before = by_time_view(groups@);
        let mut list = match groups.remove(&t) {
            Some(l) => l,
            None => Vec::new(),
        };
        assert(list@ =~= (if before.contains_key(t) {
            before[t]
        } else {
            Seq::empty()
        }));
        list.push((ch, pos));
        groups.insert(t, list);
        assert(entries@.take(i + 1).drop_last() =~= entries@.take(i as int));
        assert(entries@.take(i + 1).last() == (t, ch, pos));
        assert(by_time_view(groups@) =~= spec_channels_by_time(entries@.take(i + 1)));
        i += 1;
    }
    assert(entries@.take(entries@.len() as int) =~= entries@);
    groups
}

/// The times, in increasing order, at which the gathered frames make a cross.
pub fn cross_times(groups: &BTreeMap<u64, Vec<(u8, usize)>>) -> (r: Vec<u64>)
    ensures
        forall|i: int, j: int| 0 <= i < j < r@.len() ==> r@[i] < r@[j],
        forall|t: u64|
            r@.contains(t) <==> (groups@.contains_key(t) && spec_is_cross(
                channels_of(by_time_view(groups@)[t]),
            )),
{
    let keys = crate::processing::sorted_keys(groups);
    let mut out: Vec<u64> = Vec::new();
    let mut k: usize = 0;
    while k < keys.len()
        invariant
            k <= keys@.len(),
            keys@.to_set() == groups@.dom(),
            forall|i: int, j: int| 0 <= i < j < keys@.len() ==> keys@[i] < keys@[j],
            forall|i: int, j: int| 0 <= i < j < out@.len() ==> out@[i] < out@[j],
            forall|i: int| #![trigger out@[i]] 0 <= i < out@.len() ==> exists|m: int| 0 <= m < k && out@[i] == #[trigger] keys@[m],
            forall|t: u64|
                out@.contains(t) <==> (exists|m: int| 0 <= m < k && #[trigger] keys@[m] == t) && spec_is_cross(
                    channels_of(by_time_view(groups@)[t]),
                ),
        decreases keys@.len() - k,
    {
        proof {
            lemma_time_keys_ordered();
        }
        let t = keys[k];
        assert(keys@.to_set().contains(t));
        let list = match groups.get(&t) {
            Some(l) => l,
            None => {
                assert(false);
                return out;
            },
        };
        assert(list@ == by_time_view(groups@)[t]);
        let ghost before = out@;
        if is_cross(list.as_slice()) {
            out.push(t);
            assert forall|i: int, j: int| 0 <= i < j < out@.len() implies out@[i] < out@[j] by {
                if j == out@.len() - 1 && i < before.len() {
                    let m = choose|m: int| 0 <= m < k && before[i] == #[trigger] keys@[m];
                    assert(keys@[m] < keys@[k as int]);
                }
            }
            assert forall|i: int| #![trigger out@[i]] 0 <= i < out@.len() implies exists|m: int| 0 <= m < k + 1
                && out@[i] == #[trigger] keys@[m] by {
                if i < before.len() {
                    let m = choose|m: int| 0 <= m < k && before[i] == #[trigger] keys@[m];
                    assert(0 <= m < k + 1 && out@[i] == keys@[m]);
                } else {
                    assert(out@[i] == keys@[k as int]);
                }
            }
        }
        assert forall|s: u64|
            out@.contains(s) <==> (exists|m: int| 0 <= m < k + 1 && #[trigger] keys@[m] == s) && spec_is_cross(
                channels_of(by_time_view(groups@)[s]),
            ) by {
            if out@.contains(s) && s != t {
                assert(before.contains(s));
            }
            if s != t && (exists|m: int| 0 <= m < k + 1 && #[trigger] keys@[m] == s) {
                let m = choose|m: int| 0 <= m < k + 1 && #[trigger] keys@[m] == s;
                assert(m < k);
            }
            if s == t && spec_is_cross(channels_of(by_time_view(groups@)[s])) {
                assert(out@[out@.len() - 1] == t);
            }
            if s != t && before.contains(s) {
                let i = choose|i: int| 0 <= i < before.len() && before[i] == s;
                assert(out@[i] == s);
            }
        }
        k += 1;
    }
    assert forall|t: u64| out@.contains(t) <==> (groups@.contains_key(t) && spec_is_cross(
        channels_of(by_time_view(groups@)[t]),
    )) by {
        if groups@.contains_key(t) {
            assert(keys@.to_set().contains(t));
            let m = choose|m: int| 0 <= m < keys@.len() && keys@[m] == t;
            assert(keys@[m] == t);
        }
        if exists|m: int| 0 <= m < keys@.len() && #[trigger] keys@[m] == t {
            let m = choose|m: int| 0 <= m < keys@.len() && #[trigger] keys@[m] == t;
            assert(keys@.to_set().contains(keys@[m]));
        }
    }
    out
}

/// The one-based channel pairs of the double crosses among `crosses`, in order.
pub open spec fn double_pairs(crosses: Seq<Seq<u8>>) -> Seq<(u8, u8)>
    decreases crosses.len(),
{
    if crosses.len() == 0 {
        Seq::empty()
    } else {
        let rest = double_pairs(crosses.drop_last());
        match spec_cross_pair(crosses.last()) {
            Some(p) => rest.push(p),
            None => rest,
        }
    }
}

/// The channels of each of a list of crosses.
pub open spec fn cross_channels<T>(crosses: Seq<Vec<(u8, T)>>) -> Seq<Seq<u8>> {
    crosses.map_values(|c: Vec<(u8, T)>| channels_of(c@))
}

proof fn lemma_pair_keys_ordered()
    ensures
        vstd::laws_cmp::obeys_cmp::<(u8, u8)>(),
{
    broadcast use vstd::laws_cmp::group_laws_cmp;

}

/// Counts the double crosses among `crosses` by their channel pair: each pair that
/// occurs is mapped to the number of double crosses with it. One-based channel numbers
/// must fit in a byte.
pub fn double_cross_counts<T>(crosses: &[Vec<(u8, T)>]) -> (r: BTreeMap<(u8, u8), usize>)
    requires
        forall|k: int|
            0 <= k < crosses@.len() ==> {
                let c = (#[trigger] crosses@[k])@;
                c.len() == 2 && c[0].0 != c[1].0 ==> c[0].0 < 255 && c[1].0 < 255
            },
    ensures
        ({
            let pairs = double_pairs(cross_channels(crosses@));
            &&& r@.dom() == pairs.to_set()
            &&& forall|p: (u8, u8)| #[trigger] r@.contains_key(p) ==> r@[p] == pairs.to_multiset().count(p)
        }),
{
    let ghost all = cross_channels(crosses@);
    let mut counts: BTreeMap<(u8, u8), usize> = BTreeMap::new();
    let mut i: usize = 0;
    proof {
        broadcast use vstd::seq_lib::group_to_multiset_ensures;

        assert(all.take(0) =~= Seq::<Seq<u8>>::empty());
        assert(double_pairs(all.take(0)) =~= Seq::<(u8, u8)>::empty());
        assert(counts@.dom() =~= double_pairs(all.take(0)).to_set());
    }
    while i < crosses.len()
        invariant
            i <= crosses@.len(),
            all == cross_channels(crosses@),
            forall|k: int|
                0 <= k < crosses@.len() ==> {
                    let c = (#[trigger] crosses@[k])@;
                    c.len() == 2 && c[0].0 != c[1].0 ==> c[0].0 < 255 && c[1].0 < 255
                },
            counts@.dom() == double_pairs(all.take(i as int)).to_set(),
            forall|p: (u8, u8)| #[trigger] counts@.contains_key(p) ==> counts@[p] == double_pairs(
                all.take(i as int),
            ).to_multiset().count(p),
            double_pairs(all.take(i as int)).len() <= i,
        decreases crosses@.len() - i,
    {
        proof {
            lemma_pair_keys_ordered();
        }
        let ghost prev = double_pairs(all.take(i as int));
        assert(all.take(i + 1).drop_last() =~= all.take(i as int));
        assert(all.take(i + 1).last() == channels_of(crosses@[i as int]@));
        let pair = cross_pair(crosses[i].as_slice());
        match pair {
            Some(p) => {
                let ghost next = prev.push(p);
                assert(double_pairs(all.take(i + 1)) == next);
                let c: usize = match counts.get(&p) {
                    Some(v) => *v,
                    None => 0,
                };
                proof {
                    broadcast use vstd::seq_lib::group_to_multiset_ensures;

                    assert(next.to_multiset() =~= prev.to_multiset().insert(p));
                    if !counts@.contains_key(p) {
                        assert(!prev.to_set().contains(p));
                        assert(!prev.contains(p));
                        assert(prev.to_multiset().count(p) == 0);
                    }
                    assert(c == prev.to_multiset().count(p));
                    assert(prev.to_multiset().count(p) <= prev.len()) by {
                        vstd::multiset::axiom_count_le_len(prev.to_multiset(), p);
                    }
                }
                counts.insert(p, c + 1);
                proof {
                    broadcast use vstd::seq_lib::group_to_multiset_ensures;

                    assert forall|q: (u8, u8)| next.contains(q) <==> prev.contains(q) || q == p by {
                        if next.contains(q) {
                            let j = choose|j: int| 0 <= j < next.len() && next[j] == q;
                            if j < prev.len() {
                                assert(prev[j] == q);
                            }
                        }
                        if prev.contains(q) {
                            let j = choose|j: int| 0 <= j < prev.len() && prev[j] == q;
                            assert(next[j] == q);
                        }
                        if q == p {
                            assert(next[prev.len() as int] == q);
                        }
                    }
                    assert(counts@.dom() =~= next.to_set());
                    assert forall|q: (u8, u8)| #[trigger] counts@.contains_key(q) implies counts@[q]
                        == next.to_multiset().count(q) by {
                        if q != p {
                            assert(prev.to_set().contains(q));
                        }
                    }
                }
            },
            None => {
                assert(double_pairs(all.take(i + 1)) == prev);
            },
        }
        i += 1;
    }
    assert(all.take(crosses@.len() as int) =~= all);
    counts
}

/// The events just before `i` (going back) whose times lie in `[lo, hi)`, up to the
/// first one outside.
pub open spec fn left_run(times: Seq<u64>, i: int, lo: u64, hi: u64) -> Seq<usize>
    decreases i,
{
    if i <= 0 || i > times.len() || !(lo <= times[i - 1] && times[i - 1] < hi) {
        Seq::empty()
    } else {
        seq![(i - 1) as usize] + left_run(times, i - 1, lo, hi)
    }
}

/// The events just after `i` (going forward) whose times lie in `[lo, hi)`, up to the
/// first one outside.
pub open spec fn right_run(times: Seq<u64>, i: int, lo: u64, hi: u64) -> Seq<usize>
    decreases times.len() - i,
{
    if i < 0 || i + 1 >= times.len() || !(lo <= times[i + 1] && times[i + 1] < hi) {
        Seq::empty()
    } else {
        seq![(i + 1) as usize] + right_run(times, i + 1, lo, hi)
    }
}

/// The neighbours of event `idx` shown beside it: the adjoining events, backwards then
/// forwards, whose times lie within `neighborhood` of its time (the window
/// `[t - neighborhood, t + neighborhood)`), each run stopping at the first event
/// outside.
pub fn neighbors(times: &[u64], idx: usize, neighborhood: u64) -> (r: Vec<usize>)
    requires
        idx < times@.len(),
        neighborhood <= times@[idx as int],
        times@[idx as int] + neighborhood <= u64::MAX,
    ensures
        ({
            let t = times@[idx as int];
            let lo = (t - neighborhood) as u64;
            let hi = (t + neighborhood) as u64;
            r@ == left_run(times@, idx as int, lo, hi) + right_run(times@, idx as int, lo, hi)
        }),
{
    let t = times[idx];
    let lo = t - neighborhood;
    let hi = t + neighborhood;
    let mut out: Vec<usize> = Vec::new();
    let mut left: usize = idx;
    loop
        invariant
            left <= idx < times@.len(),
            out@ + left_run(times@, left as int, lo, hi) == left_run(times@, idx as int, lo, hi),
        ensures
            left <= idx < times@.len(),
            out@ + left_run(times@, left as int, lo, hi) == left_run(times@, idx as int, lo, hi),
            left_run(times@, left as int, lo, hi) == Seq::<usize>::empty(),
        decreases left,
    {
        if left == 0 {
            break;
        }
        let prev = times[left - 1];
        if !(lo <= prev && prev < hi) {
            break;
        }
        assert(out@.push((left - 1) as usize) + left_run(times@, left - 1, lo, hi) =~= out@ + left_run(
            times@,
            left as int,
            lo,
            hi,
        ));
        out.push(left - 1);
        left -= 1;
    }
    assert(out@ =~= out@ + left_run(times@, left as int, lo, hi));
    let ghost lefts = out@;
    let mut right: usize = idx;
    loop
        invariant
            idx <= right < times@.len(),
            lefts == left_run(times@, idx as int, lo, hi),
            out@ + right_run(times@, right as int, lo, hi) == lefts + right_run(times@, idx as int, lo, hi),
        ensures
            out@ + right_run(times@, right as int, lo, hi) == lefts + right_run(times@, idx as int, lo, hi),
            right_run(times@, right as int, lo, hi) == Seq::<usize>::empty(),
        decreases times@.len() - right,
    {
        if right == times.len() - 1 {
            break;
        }
        let next = times[right + 1];
        if !(lo <= next && next < hi) {
            break;
        }
        assert(out@.push((right + 1) as usize) + right_run(times@, right + 1, lo, hi) =~= out@ + right_run(
            times@,
            right as int,
            lo,
            hi,
        ));
        out.push(right + 1);
        right += 1;
    }
    assert(out@ =~= out@ + right_run(times@, right as int, lo, hi));
    out
}

} // verus!
