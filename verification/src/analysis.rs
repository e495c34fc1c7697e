//! Selecting points for analysis: excluded paths, the setpoint voltage written at
//! the end of a point's file name, and points grouped by setpoint.
use vstd::prelude::*;
use std::collections::BTreeMap;

verus! {

/// Whether a byte is an ASCII decimal digit.
pub open spec fn is_digit(b: u8) -> bool {
    48 <= b <= 57
}

/// The value of a sequence of decimal digits.
pub open spec fn decimal_value(ds: Seq<u8>) -> int
    decreases ds.len(),
{
    if ds.len() == 0 {
        0
    } else {
        decimal_value(ds.drop_last()) * 10 + (ds.last() - 48)
    }
}

/// The value of a run of decimal digits that fits in 16 bits.
pub open spec fn spec_digits_u16(digits: Seq<u8>) -> Option<u16> {
    if digits.len() == 0 {
        None
    } else if exists|i: int| 0 <= i < digits.len() && !is_digit(#[trigger] digits[i]) {
        None
    } else if decimal_value(digits) > 65535 {
        None
    } else {
        Some(decimal_value(digits) as u16)
    }
}

/// How `u16::from_str` reads a byte string: an optional `+`, then at least one
/// digit, the value fitting in 16 bits.
pub open spec fn spec_parse_u16(s: Seq<u8>) -> Option<u16> {
    if s.len() > 0 && s[0] == 43u8 {
        spec_digits_u16(s.drop_first())
    } else {
        spec_digits_u16(s)
    }
}

/// The setpoint voltage of a point: the five bytes before the last byte of its file
/// name, read as a number (`p0(30s)(HV1=14000)` has setpoint 14000).
pub open spec fn spec_setpoint(name: Seq<u8>) -> Option<u16> {
    if name.len() < 6 {
        None
    } else {
        spec_parse_u16(name.subrange(name.len() - 6, name.len() - 1))
    }
}

/// A file name that ends with five decimal digits and a closing bracket, such as
/// `p0(30s)(HV1=14000)`, has the setpoint those digits spell, when it fits in 16 bits.
pub proof fn lemma_setpoint_of_five_digits(prefix: Seq<u8>, d: Seq<u8>)
    requires
        d.len() == 5,
        forall|i: int| 0 <= i < 5 ==> 48 <= #[trigger] d[i] <= 57,
        (d[0] - 48) * 10000 + (d[1] - 48) * 1000 + (d[2] - 48) * 100 + (d[3] - 48) * 10 + (d[4] - 48) <= 65535,
    ensures
        spec_setpoint(prefix + d + seq![41u8]) == Some(
            ((d[0] - 48) * 10000 + (d[1] - 48) * 1000 + (d[2] - 48) * 100 + (d[3] - 48) * 10 + (d[4] - 48)) as u16,
        ),
{
    let name = prefix + d + seq![41u8];
    assert(name.subrange(name.len() - 6, name.len() - 1) =~= d);
    assert(d.drop_last() =~= d.take(4));
    assert(d.take(4).drop_last() =~= d.take(3));
    assert(d.take(3).drop_last() =~= d.take(2));
    assert(d.take(2).drop_last() =~= d.take(1));
    assert(d.take(1).drop_last() =~= Seq::<u8>::empty());
    assert(decimal_value(Seq::<u8>::empty()) == 0);
    assert(d.take(1).last() == d[0]);
    assert(d.take(2).last() == d[1]);
    assert(d.take(3).last() == d[2]);
    assert(d.take(4).last() == d[3]);
    assert(decimal_value(d.take(1)) == d[0] - 48);
    assert(decimal_value(d.take(2)) == (d[0] - 48) * 10 + (d[1] - 48));
    assert(decimal_value(d.take(3)) == ((d[0] - 48) * 10 + (d[1] - 48)) * 10 + (d[2] - 48));
    assert(decimal_value(d.take(4)) == (((d[0] - 48) * 10 + (d[1] - 48)) * 10 + (d[2] - 48)) * 10 + (d[3] - 48));
    assert(decimal_value(d) == ((((d[0] - 48) * 10 + (d[1] - 48)) * 10 + (d[2] - 48)) * 10 + (d[3] - 48)) * 10 + (d[4] - 48));
    assert(!(exists|i: int| 0 <= i < d.len() && !is_digit(#[trigger] d[i])));
}

proof fn lemma_decimal_prefix(ds: Seq<u8>, k: int)
    requires
        0 <= k <= ds.len(),
        forall|i: int| 0 <= i < ds.len() ==> is_digit(#[trigger] ds[i]),
    ensures
        0 <= decimal_value(ds.take(k)) <= decimal_value(ds),
    decreases ds.len() - k,
{
    if k < ds.len() {
        lemma_decimal_prefix(ds, k + 1);
        assert(ds.take(k + 1).drop_last() =~= ds.take(k));
        lemma_decimal_nonneg(ds.take(k));
    } else {
        assert(ds.take(k) =~= ds);
        lemma_decimal_nonneg(ds);
    }
}

proof fn lemma_decimal_nonneg(ds: Seq<u8>)
    requires
        forall|i: int| 0 <= i < ds.len() ==> is_digit(#[trigger] ds[i]),
    ensures
        decimal_value(ds) >= 0,
    decreases ds.len(),
{
    if ds.len() > 0 {
        assert(is_digit(ds[ds.len() - 1]));
        lemma_decimal_nonneg(ds.drop_last());
    }
}

/// Reads a byte string as `u16::from_str` does; `None` where that returns an error.
pub fn parse_u16(s: &[u8]) -> (r: Option<u16>)
    ensures
        r == spec_parse_u16(s@),
{
    let n = s.len();
    let start: usize = if n > 0 && s[0] == 43u8 {
        1
    } else {
        0
    };
    let ghost digits = if s@.len() > 0 && s@[0] == 43u8 {
        s@.drop_first()
    } else {
        s@
    };
    assert(digits =~= s@.subrange(start as int, n as int));
    assert(spec_parse_u16(s@) == spec_digits_u16(digits));
    if start == n {
        return None;
    }
    let mut j: usize = start;
    while j < n
        invariant
            start <= j <= n == s@.len(),
            digits =~= s@.subrange(start as int, n as int),
            spec_parse_u16(s@) == spec_digits_u16(digits),
            forall|i: int| start <= i < j ==> is_digit(#[trigger] s@[i]),
        decreases n - j,
    {
        if !(48u8 <= s[j] && s[j] <= 57u8) {
            assert(digits[j - start] == s@[j as int]);
            assert(!is_digit(digits[j - start]));
            assert(exists|k: int| 0 <= k < digits.len() && !is_digit(#[trigger] digits[k]));
            assert(spec_digits_u16(digits) is None);
            return None;
        }
        j += 1;
    }
    assert(forall|i: int| 0 <= i < digits.len() ==> is_digit(#[trigger] digits[i])) by {
        assert forall|i: int| 0 <= i < digits.len() implies is_digit(#[trigger] digits[i]) by {
            assert(digits[i] == s@[start + i]);
        }
    }
    let mut acc: u32 = 0;
    let mut i: usize = start;
    while i < n
        invariant
            start <= i <= n == s@.len(),
            digits =~= s@.subrange(start as int, n as int),
            forall|k: int| 0 <= k < digits.len() ==> is_digit(#[trigger] digits[k]),
            spec_parse_u16(s@) == spec_digits_u16(digits),
            acc as int == decimal_value(digits.take(i - start)),
            acc <= 65535,
        decreases n - i,
    {
        assert(digits.take(i + 1 - start).drop_last() =~= digits.take(i - start));
        assert(is_digit(digits[i - start]));
        assert(digits[i - start] == s@[i as int]);
        let d = (s[i] - 48u8) as u32;
        let next: u32 = acc * 10 + d;
        assert(next as int == decimal_value(digits.take(i + 1 - start)));
        if next > 65535 {
            proof {
                lemma_decimal_prefix(digits, i + 1 - start);
            }
            assert(spec_digits_u16(digits) is None);
            return None;
        }
        acc = next;
        i += 1;
    }
    assert(digits.take(n - start) =~= digits);
    Some(acc as u16)
}

/// Reads the setpoint voltage from a point's file name.
pub fn setpoint_from_filename(name: &[u8]) -> (r: Option<u16>)
    ensures
        r == spec_setpoint(name@),
{
    let n = name.len();
    if n < 6 {
        return None;
    }
    let mut digits: Vec<u8> = Vec::new();
    let mut i: usize = n - 6;
    while i < n - 1
        invariant
            6 <= n == name@.len(),
            n - 6 <= i <= n - 1,
            digits@ =~= name@.subrange(n - 6, i as int),
        decreases n - 1 - i,
    {
        digits.push(name[i]);
        i += 1;
    }
    parse_u16(digits.as_slice())
}

/// Whether `pattern` occurs in `text` as a contiguous run of bytes.
pub open spec fn occurs_in(pattern: Seq<u8>, text: Seq<u8>) -> bool {
    exists|i: int| 0 <= i && i + pattern.len() <= text.len() && #[trigger] text.subrange(i, i + pattern.len()) == pattern
}

/// Whether one of the patterns occurs in the path.
pub open spec fn spec_excluded(path: Seq<u8>, exclude: Seq<Vec<u8>>) -> bool {
    exists|k: int| 0 <= k < exclude.len() && occurs_in(#[trigger] exclude[k]@, path)
}

fn occurs_at(pattern: &[u8], text: &[u8], i: usize) -> (r: bool)
    requires
        i + pattern@.len() <= text@.len(),
    ensures
        r == (text@.subrange(i as int, i + pattern@.len()) == pattern@),
{
    let mut j: usize = 0;
    while j < pattern.len()
        invariant
            j <= pattern@.len(),
            i + pattern@.len() <= text@.len(),
            forall|k: int| 0 <= k < j ==> text@[i + k] == pattern@[k],
        decreases pattern@.len() - j,
    {
        let tl = text.len();
        assert(i + j < tl);
        if text[i + j] != pattern[j] {
            assert(text@.subrange(i as int, i + pattern@.len())[j as int] != pattern@[j as int]);
            return false;
        }
        j += 1;
    }
    assert(text@.subrange(i as int, i + pattern@.len()) =~= pattern@);
    true
}

/// Whether `pattern` occurs in `text`.
pub fn contains_bytes(text: &[u8], pattern: &[u8]) -> (r: bool)
    ensures
        r == occurs_in(pattern@, text@),
{
    if pattern.len() > text.len() {
        return false;
    }
    let last = text.len() - pattern.len();
    let mut i: usize = 0;
    while i < last
        invariant
            i <= last,
            last == text@.len() - pattern@.len(),
            forall|k: int| 0 <= k < i ==> #[trigger] text@.subrange(k, k + pattern@.len()) != pattern@,
        decreases last - i,
    {
        if occurs_at(pattern, text, i) {
            return true;
        }
        i += 1;
    }
    if occurs_at(pattern, text, last) {
        return true;
    }
    assert forall|k: int| 0 <= k && k + pattern@.len() <= text@.len() implies #[trigger] text@.subrange(
        k,
        k + pattern@.len(),
    ) != pattern@ by {
        assert(k <= last);
    }
    false
}

/// Whether a path is excluded: one of the patterns occurs in it.
pub fn is_excluded(path: &[u8], exclude: &[Vec<u8>]) -> (r: bool)
    ensures
        r == spec_excluded(path@, exclude@),
{
    let mut k: usize = 0;
    while k < exclude.len()
        invariant
            k <= exclude@.len(),
            forall|j: int| 0 <= j < k ==> !occurs_in(#[trigger] exclude@[j]@, path@),
        decreases exclude@.len() - k,
    {
        if contains_bytes(path, exclude[k].as_slice()) {
            return true;
        }
        k += 1;
    }
    false
}

/// Points grouped by setpoint, from the first `n` of them: the indices of the points
/// that are not excluded, in order, under their setpoints; `None` when a point that is
/// not excluded has no readable setpoint.
pub open spec fn spec_points_by_setpoint(
    names: Seq<Vec<u8>>,
    paths: Seq<Vec<u8>>,
    exclude: Seq<Vec<u8>>,
    n: int,
) -> Option<Map<u16, Seq<usize>>>
    decreases n,
{
    if n <= 0 {
        Some(Map::empty())
    } else {
        match spec_points_by_setpoint(names, paths, exclude, n - 1) {
            None => None,
            Some(m) => if spec_excluded(paths[n - 1]@, exclude) {
                Some(m)
            } else {
                match spec_setpoint(names[n - 1]@) {
                    None => None,
                    Some(u) => {
                        let prev = if m.contains_key(u) {
                            m[u]
                        } else {
                            Seq::empty()
                        };
                        Some(m.insert(u, prev.push((n - 1) as usize)))
                    },
                }
            },
        }
    }
}

/// Whether one of the patterns occurs somewhere in `text`.
pub open spec fn has_pattern(text: Seq<u8>, patterns: Seq<Vec<u8>>) -> bool {
    exists|k: int, j: int|
        0 <= k < patterns.len() && 0 <= j && j + patterns[k]@.len() <= text.len() && #[trigger] text.subrange(
            j,
            j + patterns[k]@.len(),
        ) == patterns[k]@
}

proof fn lemma_has_pattern_excluded(text: Seq<u8>, patterns: Seq<Vec<u8>>)
    ensures
        has_pattern(text, patterns) == spec_excluded(text, patterns),
{
    if has_pattern(text, patterns) {
        let (k, j) = choose|k: int, j: int|
            0 <= k < patterns.len() && 0 <= j && j + patterns[k]@.len() <= text.len() && #[trigger] text.subrange(
                j,
                j + patterns[k]@.len(),
            ) == patterns[k]@;
        assert(occurs_in(patterns[k]@, text));
    }
    if spec_excluded(text, patterns) {
        let k = choose|k: int| 0 <= k < patterns.len() && occurs_in(#[trigger] patterns[k]@, text);
        let j = choose|j: int| 0 <= j && j + patterns[k]@.len() <= text.len() && #[trigger] text.subrange(
            j,
            j + patterns[k]@.len(),
        ) == patterns[k]@;
        assert(text.subrange(j, j + patterns[k]@.len()) == patterns[k]@);
    }
}

/// Whether `m` is the selection of the first `n` points: an index is listed exactly
/// when no pattern occurs in its path, and then under the setpoint of its name; the
/// lists hold only indices below `n`, in increasing order.
pub open spec fn selection_of(
    m: Map<u16, Seq<usize>>,
    names: Seq<Vec<u8>>,
    paths: Seq<Vec<u8>>,
    exclude: Seq<Vec<u8>>,
    n: int,
) -> bool {
    &&& forall|i: int, u: u16|
        #![trigger m[u], paths[i]]
        0 <= i < n && has_pattern(paths[i]@, exclude) && m.contains_key(u) ==> !m[u].contains(i as usize)
    &&& forall|i: int|
        0 <= i < n && !has_pattern(#[trigger] paths[i]@, exclude) ==> spec_setpoint(names[i]@) is Some
            && m.contains_key(spec_setpoint(names[i]@).unwrap()) && m[spec_setpoint(
            names[i]@,
        ).unwrap()].contains(i as usize)
    &&& forall|u: u16, j: int|
        m.contains_key(u) && 0 <= j < m[u].len() ==> (#[trigger] m[u][j]) < n && spec_setpoint(
            names[m[u][j] as int]@,
        ) == Some(u)
    &&& forall|u: u16, j: int, l: int| m.contains_key(u) && 0 <= j < l < m[u].len() ==> #[trigger] m[u][j] < #[trigger] m[u][l]
}

/// Points are selected by their paths and grouped by their names: the first `n`
/// points give `None` exactly when one whose path holds no excluded pattern has no
/// readable setpoint; otherwise an index is listed exactly when no excluded pattern
/// occurs in its path (one that does is listed under no setpoint), under the setpoint
/// of its name, lists in increasing order.
pub proof fn lemma_points_selection(names: Seq<Vec<u8>>, paths: Seq<Vec<u8>>, exclude: Seq<Vec<u8>>, n: int)
    requires
        0 <= n <= names.len(),
        names.len() == paths.len(),
        names.len() <= usize::MAX,
    ensures
        spec_points_by_setpoint(names, paths, exclude, n) is None <==> exists|i: int|
            0 <= i < n && !has_pattern(#[trigger] paths[i]@, exclude) && spec_setpoint(names[i]@) is None,
        spec_points_by_setpoint(names, paths, exclude, n) matches Some(m) ==> selection_of(m, names, paths, exclude, n),
    decreases n,
{
    if n > 0 {
        lemma_points_selection(names, paths, exclude, n - 1);
        lemma_has_pattern_excluded(paths[n - 1]@, exclude);
        let last = n - 1;
        match spec_points_by_setpoint(names, paths, exclude, n - 1) {
            None => {
                let i = choose|i: int|
                    0 <= i < n - 1 && !has_pattern(#[trigger] paths[i]@, exclude) && spec_setpoint(names[i]@) is None;
                assert(0 <= i < n && !has_pattern(paths[i]@, exclude) && spec_setpoint(names[i]@) is None);
            },
            Some(m0) => {
                if has_pattern(paths[last]@, exclude) {
                    let m = m0;
                    assert forall|i: int, u: u16|
                        #![trigger m[u], paths[i]]
                        0 <= i < n && has_pattern(paths[i]@, exclude) && m.contains_key(u) implies !m[u].contains(i as usize) by {
                        if i == last && m[u].contains(i as usize) {
                            let j = choose|j: int| 0 <= j < m[u].len() && m[u][j] == i as usize;
                            assert(m[u][j] < n - 1);
                        }
                    }
                    if exists|i: int| 0 <= i < n && !has_pattern(#[trigger] paths[i]@, exclude) && spec_setpoint(names[i]@) is None {
                        let i = choose|i: int| 0 <= i < n && !has_pattern(#[trigger] paths[i]@, exclude) && spec_setpoint(names[i]@) is None;
                        assert(i < n - 1);
                    }
                } else {
                    match spec_setpoint(names[last]@) {
                        None => {
                            assert(!has_pattern(paths[last]@, exclude) && spec_setpoint(names[last]@) is None);
                        },
                        Some(u0) => {
                            let prev = if m0.contains_key(u0) {
                                m0[u0]
                            } else {
                                Seq::empty()
                            };
                            let m = m0.insert(u0, prev.push(last as usize));
                            assert(spec_points_by_setpoint(names, paths, exclude, n) == Some(m));
                            if exists|i: int| 0 <= i < n && !has_pattern(#[trigger] paths[i]@, exclude) && spec_setpoint(names[i]@) is None {
                                let i = choose|i: int| 0 <= i < n && !has_pattern(#[trigger] paths[i]@, exclude) && spec_setpoint(names[i]@) is None;
                                assert(i < n - 1);
                            }
                            assert forall|u: u16, j: int|
                                m.contains_key(u) && 0 <= j < m[u].len() implies (#[trigger] m[u][j]) < n && spec_setpoint(
                                names[m[u][j] as int]@,
                            ) == Some(u) by {
                                if u == u0 && j == prev.len() {
                                    assert(m[u][j] == last as usize);
                                } else if u == u0 {
                                    assert(m[u][j] == prev[j]);
                                    assert(m0[u][j] == prev[j]);
                                }
                            }
                            assert forall|u: u16, j: int, l: int| m.contains_key(u) && 0 <= j < l < m[u].len() implies #[trigger] m[u][j]
                                < #[trigger] m[u][l] by {
                                if u == u0 {
                                    if l == prev.len() {
                                        assert(m[u][j] == prev[j] && m0[u][j] == prev[j]);
                                    } else {
                                        assert(m[u][j] == m0[u][j] && m[u][l] == m0[u][l]);
                                    }
                                }
                            }
                            assert forall|i: int, u: u16|
                                #![trigger m[u], paths[i]]
                                0 <= i < n && has_pattern(paths[i]@, exclude) && m.contains_key(u) implies !m[u].contains(i as usize) by {
                                if m[u].contains(i as usize) {
                                    let j = choose|j: int| 0 <= j < m[u].len() && m[u][j] == i as usize;
                                    if u == u0 && j == prev.len() {
                                    } else if u == u0 {
                                        assert(m0[u].contains(i as usize));
                                    } else {
                                        assert(m0[u].contains(i as usize));
                                    }
                                }
                            }
                            assert forall|i: int|
                                0 <= i < n && !has_pattern(#[trigger] paths[i]@, exclude) implies spec_setpoint(names[i]@) is Some
                                    && m.contains_key(spec_setpoint(names[i]@).unwrap()) && m[spec_setpoint(
                                    names[i]@,
                                ).unwrap()].contains(i as usize) by {
                                if i == last {
                                    assert(m[u0][prev.len() as int] == last as usize);
                                } else {
                                    let v = spec_setpoint(names[i]@).unwrap();
                                    assert(m0[v].contains(i as usize));
                                    let j = choose|j: int| 0 <= j < m0[v].len() && m0[v][j] == i as usize;
                                    if v == u0 {
                                        assert(m[v][j] == i as usize);
                                    }
                                }
                            }
                        },
                    }
                }
            },
        }
    }
}

/// The view of a map of index lists.
pub open spec fn index_map_view(m: Map<u16, Vec<usize>>) -> Map<u16, Seq<usize>> {
    Map::new(|u: u16| m.contains_key(u), |u: u16| m[u]@)
}

/// Groups points by the setpoint read from their file names, leaving out those whose
/// path contains an excluded pattern: the result maps each setpoint to the indices of
/// its points in order. `None` when a point that is not excluded has no readable
/// setpoint.
pub fn points_by_setpoint(names: &[Vec<u8>], paths: &[Vec<u8>], exclude: &[Vec<u8>]) -> (r: Option<
    BTreeMap<u16, Vec<usize>>,
>)
    requires
        names@.len() == paths@.len(),
    ensures
        match r {
            Some(m) => spec_points_by_setpoint(names@, paths@, exclude@, names@.len() as int)
                == Some(index_map_view(m@)),
            None => spec_points_by_setpoint(names@, paths@, exclude@, names@.len() as int)
                is None,
        },
{
    let mut groups: BTreeMap<u16, Vec<usize>> = BTreeMap::new();
    let mut i: usize = 0;
    assert(index_map_view(groups@) =~= Map::<u16, Seq<usize>>::empty());
    while i < names.len()
        invariant
            i <= names@.len() == paths@.len(),
            spec_points_by_setpoint(names@, paths@, exclude@, i as int) == Some(
                index_map_view(groups@),
            ),
        decreases names@.len() - i,
    {
        if !is_excluded(paths[i].as_slice(), exclude) {
            match setpoint_from_filename(names[i].as_slice()) {
                None => {
                    proof {
                        lemma_setpoint_none_persists(names@, paths@, exclude@, i as int + 1, names@.len() as int);
                    }
                    return None;
                },
                Some(u) => {
                    let ghost before = index_map_view(groups@);
                    let mut list = match groups.remove(&u) {
                        Some(l) => l,
                        None => Vec::new(),
                    };
                    list.push(i);
                    groups.insert(u, list);
                    assert(index_map_view(groups@) =~= before.insert(
                        u,
                        (if before.contains_key(u) {
                            before[u]
                        } else {
                            Seq::empty()
                        }).push(i),
                    ));
                },
            }
        }
        i += 1;
    }
    Some(groups)
}

proof fn lemma_setpoint_none_persists(
    names: Seq<Vec<u8>>,
    paths: Seq<Vec<u8>>,
    exclude: Seq<Vec<u8>>,
    k: int,
    n: int,
)
    requires
        0 < k <= n,
        spec_points_by_setpoint(names, paths, exclude, k) is None,
    ensures
        spec_points_by_setpoint(names, paths, exclude, n) is None,
    decreases n - k,
{
    if k < n {
        lemma_setpoint_none_persists(names, paths, exclude, k + 1, n);
    }
}

/// Dead-time statistics of a time-ordered run of events.
#[derive(Debug, Clone, Copy, PartialEq, Eq, Structural)]
pub struct DeadtimeStats {
    /// The estimated dead time in nanoseconds.
    pub total_deadtime: u64,
    /// Events following the previous one within 2400 ns (but not part of a triple).
    pub close_count: u64,
    /// Events following the previous one after 2400 ns or more.
    pub normal_count: u64,
    /// Events closer than 2400 ns to both their neighbours before.
    pub triple_close_count: u64,
}

/// The time within which two events are counted as close, in nanoseconds.
pub const CLOSE_EVENTS_NS: u64 = 2400;

/// The statistics over the windows of three consecutive events starting before `k`:
/// a window whose two gaps are both under 2400 ns is a triple; otherwise a last gap
/// under 2400 ns is a close pair (1600 ns dead), and anything else a normal event
/// (800 ns dead).
pub open spec fn spec_deadtime_stats(times: Seq<u64>, k: int) -> DeadtimeStats
    decreases k,
{
    if k <= 0 {
        DeadtimeStats { total_deadtime: 0, close_count: 0, normal_count: 0, triple_close_count: 0 }
    } else {
        let s = spec_deadtime_stats(times, k - 1);
        let w = k - 1;
        let gap = times[w + 2] - times[w + 1];
        let gap_prev = times[w + 1] - times[w];
        if gap_prev < 2400 && gap < 2400 {
            DeadtimeStats { triple_close_count: (s.triple_close_count + 1) as u64, ..s }
        } else if gap < 2400 {
            DeadtimeStats {
                total_deadtime: (s.total_deadtime + 1600) as u64,
                close_count: (s.close_count + 1) as u64,
                ..s
            }
        } else {
            DeadtimeStats {
                total_deadtime: (s.total_deadtime + 800) as u64,
                normal_count: (s.normal_count + 1) as u64,
                ..s
            }
        }
    }
}

/// The number of windows of three consecutive events.
pub open spec fn window_count(n: int) -> int {
    if n >= 3 {
        n - 2
    } else {
        0
    }
}

proof fn lemma_deadtime_bounds(times: Seq<u64>, k: int)
    requires
        0 <= k,
        k * 1600 <= u64::MAX,
    ensures
        spec_deadtime_stats(times, k).total_deadtime <= k * 1600,
        spec_deadtime_stats(times, k).close_count <= k,
        spec_deadtime_stats(times, k).normal_count <= k,
        spec_deadtime_stats(times, k).triple_close_count <= k,
        spec_deadtime_stats(times, k).close_count + spec_deadtime_stats(times, k).normal_count
            + spec_deadtime_stats(times, k).triple_close_count == k,
    decreases k,
{
    if k > 0 {
        lemma_deadtime_bounds(times, k - 1);
    }
}

proof fn lemma_deadtime_prefix(times: Seq<u64>, extra: Seq<u64>, k: int)
    requires
        0 <= k,
        k + 2 <= times.len(),
    ensures
        spec_deadtime_stats(times + extra, k) == spec_deadtime_stats(times, k),
    decreases k,
{
    if k > 0 {
        lemma_deadtime_prefix(times, extra, k - 1);
        let w = k - 1;
        assert((times + extra)[w + 2] == times[w + 2]);
        assert((times + extra)[w + 1] == times[w + 1]);
        assert((times + extra)[w] == times[w]);
    }
}

/// How the statistics change when a window with gaps `first` then `last` (in ns) is
/// added: a triple when both gaps are under 2400 ns; otherwise a close pair (1600 ns
/// more dead time) when the last gap is under 2400 ns; otherwise a normal event (800 ns
/// more).
pub open spec fn window_added(s0: DeadtimeStats, s: DeadtimeStats, first: int, last: int) -> bool {
    if first < 2400 && last < 2400 {
        &&& s.triple_close_count == s0.triple_close_count + 1
        &&& s.close_count == s0.close_count
        &&& s.normal_count == s0.normal_count
        &&& s.total_deadtime == s0.total_deadtime
    } else if last < 2400 {
        &&& s.close_count == s0.close_count + 1
        &&& s.total_deadtime == s0.total_deadtime + 1600
        &&& s.normal_count == s0.normal_count
        &&& s.triple_close_count == s0.triple_close_count
    } else {
        &&& s.normal_count == s0.normal_count + 1
        &&& s.total_deadtime == s0.total_deadtime + 800
        &&& s.close_count == s0.close_count
        &&& s.triple_close_count == s0.triple_close_count
    }
}

/// The statistics of the events `times`.
pub open spec fn deadtime_of(times: Seq<u64>) -> DeadtimeStats {
    spec_deadtime_stats(times, window_count(times.len() as int))
}

/// The statistics of fewer than three events are all zero; adding an event `t` after
/// at least two adds the window of the last three, classified by its two gaps.
pub proof fn lemma_deadtime_last_window(times: Seq<u64>, t: u64)
    requires
        (times.len() + 1) * 1600 <= u64::MAX,
    ensures
        times.len() < 3 ==> deadtime_of(times).total_deadtime == 0 && deadtime_of(times).close_count == 0
            && deadtime_of(times).normal_count == 0 && deadtime_of(times).triple_close_count == 0,
        times.len() >= 2 ==> window_added(
            deadtime_of(times),
            deadtime_of(times.push(t)),
            times[times.len() - 1] - times[times.len() - 2],
            t - times[times.len() - 1],
        ),
{
    if times.len() >= 2 {
        let n = times.len() as int;
        let u = times.push(t);
        assert(u == times + seq![t]);
        let k = n - 2;
        if k > 0 {
            lemma_deadtime_prefix(times, seq![t], k);
        }
        lemma_deadtime_bounds(u, k);
        assert(u[k + 2] == t && u[k + 1] == times[n - 1] && u[k] == times[n - 2]);
        assert(window_count(n + 1) == k + 1);
        assert(window_count(n) == k);
    }
}

/// The dead-time statistics of the consecutive event times of a point.
pub fn deadtime_stats(times: &[u64]) -> (r: DeadtimeStats)
    requires
        forall|i: int, j: int| 0 <= i <= j < times@.len() ==> times@[i] <= times@[j],
        times@.len() * 1600 <= u64::MAX,
    ensures
        r == spec_deadtime_stats(times@, window_count(times@.len() as int)),
{
    let n = times.len();
    let mut stats = DeadtimeStats { total_deadtime: 0, close_count: 0, normal_count: 0, triple_close_count: 0 };
    if n < 3 {
        return stats;
    }
    let mut w: usize = 0;
    while w < n - 2
        invariant
            3 <= n == times@.len(),
            w <= n - 2,
            n * 1600 <= u64::MAX,
            forall|i: int, j: int| 0 <= i <= j < times@.len() ==> times@[i] <= times@[j],
            stats == spec_deadtime_stats(times@, w as int),
        decreases n - 2 - w,
    {
        proof {
            lemma_deadtime_bounds(times@, w as int);
        }
        let gap = times[w + 2] - times[w + 1];
        let gap_prev = times[w + 1] - times[w];
        if gap_prev < CLOSE_EVENTS_NS && gap < CLOSE_EVENTS_NS {
            stats.triple_close_count = stats.triple_close_count + 1;
        } else if gap < CLOSE_EVENTS_NS {
            stats.total_deadtime = stats.total_deadtime + 1600;
            stats.close_count = stats.close_count + 1;
        } else {
            stats.total_deadtime = stats.total_deadtime + 800;
            stats.normal_count = stats.normal_count + 1;
        }
        w += 1;
    }
    stats
}

/// Every window is counted exactly once, and the dead time is at most 1600 ns per
/// window.
pub proof fn lemma_deadtime_counts(times: Seq<u64>)
    requires
        times.len() * 1600 <= u64::MAX,
    ensures
        ({
            let s = spec_deadtime_stats(times, window_count(times.len() as int));
            &&& s.close_count + s.normal_count + s.triple_close_count == window_count(times.len() as int)
            &&& s.total_deadtime == 1600 * s.close_count + 800 * s.normal_count
        }),
{
    lemma_deadtime_bounds(times, window_count(times.len() as int));
    lemma_deadtime_total(times, window_count(times.len() as int));
}

proof fn lemma_deadtime_total(times: Seq<u64>, k: int)
    requires
        0 <= k,
        k * 1600 <= u64::MAX,
    ensures
        spec_deadtime_stats(times, k).total_deadtime == 1600 * spec_deadtime_stats(times, k).close_count
            + 800 * spec_deadtime_stats(times, k).normal_count,
    decreases k,
{
    if k > 0 {
        lemma_deadtime_total(times, k - 1);
        lemma_deadtime_bounds(times, k - 1);
    }
}

} // verus!
