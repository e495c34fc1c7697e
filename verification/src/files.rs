//! Data files: the entries of the directory tree of points, their file names, and
//! their natural ordering.
use vstd::prelude::*;

verus! {

/// The last component of a path, as `std::path::Path::file_name` gives it (`None`
/// when the path has none, for instance when it ends in `..`).
pub uninterp spec fn file_name_of(path: Seq<char>) -> Option<Seq<char>>;

/// The view of an optional string.
pub open spec fn opt_string_view(o: Option<String>) -> Option<Seq<char>> {
    match o {
        Some(s) => Some(s@),
        None => None,
    }
}

/// Calls `std::path::Path::file_name` on `path`; the name is claimed to be the named
/// result `file_name_of` of the path (a file name of a `&str` path is valid UTF-8, so
/// the conversion back to a string does not fail).
#[verifier::external_body]
fn path_file_name(path: &str) -> (r: Option<String>)
    ensures
        opt_string_view(r) == file_name_of(path@),
{
    std::path::Path::new(path).file_name().and_then(|n| n.to_str()).map(|n| n.to_string())
}

/// The result of a natural-order comparison.
#[derive(Debug, Clone, Copy, PartialEq, Eq, Structural)]
pub enum NaturalOrder {
    Less,
    Equal,
    Greater,
}

/// The order in which `natord::compare` puts two strings.
pub uninterp spec fn natural_order_of(left: Seq<char>, right: Seq<char>) -> NaturalOrder;

/// The comparison with its arguments swapped.
pub open spec fn swapped(o: NaturalOrder) -> NaturalOrder {
    match o {
        NaturalOrder::Less => NaturalOrder::Greater,
        NaturalOrder::Equal => NaturalOrder::Equal,
        NaturalOrder::Greater => NaturalOrder::Less,
    }
}

/// Calls `natord::compare`. Claimed: the result is the named result
/// `natural_order_of`, and swapping the arguments swaps the result (the comparison in
/// natord's source treats its two sides alike, branch for branch).
#[verifier::external_body]
fn natural_compare(left: &str, right: &str) -> (r: NaturalOrder)
    ensures
        r == natural_order_of(left@, right@),
        r == swapped(natural_order_of(right@, left@)),
{
    match natord::compare(left, right) {
        std::cmp::Ordering::Less => NaturalOrder::Less,
        std::cmp::Ordering::Equal => NaturalOrder::Equal,
        std::cmp::Ordering::Greater => NaturalOrder::Greater,
    }
}

/// A file or a directory with its children, as shown by the viewers.
pub enum FSRepr {
    File { path: String },
    Directory { path: String, children: Vec<FSRepr> },
}

impl FSRepr {
    /// The path of the entry.
    pub open spec fn path_view(&self) -> Seq<char> {
        match self {
            FSRepr::File { path } => path@,
            FSRepr::Directory { path, .. } => path@,
        }
    }

    /// Whether the entry's path has a last component.
    pub open spec fn has_file_name(&self) -> bool {
        file_name_of(self.path_view()) is Some
    }

    /// The last component of the entry's path.
    pub open spec fn file_name_view(&self) -> Seq<char> {
        file_name_of(self.path_view()).unwrap()
    }

    /// The path of the entry.
    pub fn path(&self) -> (r: &String)
        ensures
            r@ == self.path_view(),
    {
        match self {
            FSRepr::File { path } => path,
            FSRepr::Directory { path, .. } => path,
        }
    }

    /// The last component of the entry's path, `None` when it has none.
    pub fn file_name(&self) -> (r: Option<String>)
        ensures
            opt_string_view(r) == file_name_of(self.path_view()),
    {
        path_file_name(self.path().as_str())
    }

    /// The last component of the entry's path, for an entry that has one.
    pub fn to_filename(&self) -> (r: String)
        requires
            self.has_file_name(),
        ensures
            r@ == self.file_name_view(),
    {
        match self.file_name() {
            Some(name) => name,
            None => String::new(),
        }
    }
}

/// Whether every entry has a file name.
#[verifier::opaque]
pub open spec fn all_named(entries: Seq<FSRepr>) -> bool {
    forall|i: int| 0 <= i < entries.len() ==> (#[trigger] entries[i]).has_file_name()
}

/// Whether consecutive entries are in natural order of their file names.
#[verifier::opaque]
pub open spec fn naturally_sorted(entries: Seq<FSRepr>) -> bool {
    forall|i: int|
        0 <= i < entries.len() - 1 ==> natural_order_of(
            (#[trigger] entries[i]).file_name_view(),
            entries[i + 1].file_name_view(),
        ) != NaturalOrder::Greater
}

/// Whether `names` holds the file names of `entries`.
#[verifier::opaque]
pub open spec fn names_match(names: Seq<String>, entries: Seq<FSRepr>) -> bool {
    &&& names.len() == entries.len()
    &&& forall|k: int| 0 <= k < entries.len() ==> (#[trigger] names[k])@ == entries[k].file_name_view()
}

fn insert_by_name(out: &mut Vec<FSRepr>, names: &mut Vec<String>, item: FSRepr, name: String) -> (j: usize)
    requires
        all_named(old(out)@),
        naturally_sorted(old(out)@),
        names_match(old(names)@, old(out)@),
        item.has_file_name(),
        name@ == item.file_name_view(),
    ensures
        all_named(final(out)@),
        naturally_sorted(final(out)@),
        names_match(final(names)@, final(out)@),
        final(out)@.to_multiset() == old(out)@.to_multiset().insert(item),
        j <= old(out)@.len(),
        final(out)@ == old(out)@.insert(j as int, item),
        forall|k: int|
            0 <= k < j ==> natural_order_of((#[trigger] old(out)@[k]).file_name_view(), name@)
                == NaturalOrder::Less,
{
    let mut j: usize = 0;
    while j < out.len()
        invariant
            j <= out@.len(),
            names_match(names@, out@),
            forall|k: int|
                0 <= k < j ==> natural_order_of((#[trigger] out@[k]).file_name_view(), name@)
                    == NaturalOrder::Less,
        ensures
            j <= out@.len(),
            forall|k: int|
                0 <= k < j ==> natural_order_of((#[trigger] out@[k]).file_name_view(), name@)
                    == NaturalOrder::Less,
            j < out@.len() ==> natural_order_of(name@, out@[j as int].file_name_view())
                != NaturalOrder::Greater,
        decreases out@.len() - j,
    {
        proof {
            reveal(names_match);
        }
        if natural_compare(name.as_str(), names[j].as_str()) != NaturalOrder::Greater {
            break;
        }
        j += 1;
    }
    let ghost before_out = out@;
    let ghost before_names = names@;
    proof {
        reveal(names_match);
        vstd::seq_lib::to_multiset_insert(before_out, j as int, item);
        lemma_insert_keeps_sorted(before_out, before_names, j as int, item, name);
    }
    out.insert(j, item);
    names.insert(j, name);
    j
}

proof fn lemma_insert_keeps_sorted(
    entries: Seq<FSRepr>,
    names: Seq<String>,
    j: int,
    item: FSRepr,
    name: String,
)
    requires
        0 <= j <= entries.len(),
        all_named(entries),
        naturally_sorted(entries),
        names_match(names, entries),
        item.has_file_name(),
        name@ == item.file_name_view(),
        forall|k: int|
            0 <= k < j ==> natural_order_of((#[trigger] entries[k]).file_name_view(), name@)
                == NaturalOrder::Less,
        j < entries.len() ==> natural_order_of(name@, entries[j].file_name_view())
            != NaturalOrder::Greater,
    ensures
        all_named(entries.insert(j, item)),
        naturally_sorted(entries.insert(j, item)),
        names_match(names.insert(j, name), entries.insert(j, item)),
{
    assert(names.len() == entries.len()) by {
        reveal(names_match);
    }
    entries.insert_ensures(j, item);
    names.insert_ensures(j, name);
    lemma_shifted_sorted(entries, entries.insert(j, item), j, item, name@);
    lemma_shifted_named(entries, names, entries.insert(j, item), names.insert(j, name), j, item, name);
}

proof fn lemma_shifted_sorted(
    entries: Seq<FSRepr>,
    out: Seq<FSRepr>,
    j: int,
    item: FSRepr,
    name: Seq<char>,
)
    requires
        0 <= j <= entries.len(),
        naturally_sorted(entries),
        name == item.file_name_view(),
        forall|k: int|
            0 <= k < j ==> natural_order_of((#[trigger] entries[k]).file_name_view(), name)
                == NaturalOrder::Less,
        j < entries.len() ==> natural_order_of(name, entries[j].file_name_view())
            != NaturalOrder::Greater,
        out.len() == entries.len() + 1,
        forall|k: int| 0 <= k < j ==> #[trigger] out[k] == entries[k],
        forall|k: int| j <= k < entries.len() ==> out[k + 1] == entries[k],
        out[j] == item,
    ensures
        naturally_sorted(out),
{
    reveal(naturally_sorted);
    assert forall|k: int| 0 <= k < out.len() - 1 implies natural_order_of(
        (#[trigger] out[k]).file_name_view(),
        out[k + 1].file_name_view(),
    ) != NaturalOrder::Greater by {
        if k + 1 < j {
            assert(out[k + 1] == entries[k + 1]);
            assert(natural_order_of(entries[k].file_name_view(), entries[k + 1].file_name_view())
                != NaturalOrder::Greater);
        } else if k + 1 == j {
            assert(natural_order_of(entries[k].file_name_view(), name) == NaturalOrder::Less);
        } else if k == j {
            assert(out[k + 1] == entries[k]);
        } else {
            assert(out[k] == entries[k - 1]);
            assert(out[k + 1] == entries[k]);
            assert(natural_order_of(entries[k - 1].file_name_view(), entries[k].file_name_view())
                != NaturalOrder::Greater);
        }
    }
}

proof fn lemma_shifted_named(
    entries: Seq<FSRepr>,
    names: Seq<String>,
    out: Seq<FSRepr>,
    out_names: Seq<String>,
    j: int,
    item: FSRepr,
    name: String,
)
    requires
        0 <= j <= entries.len(),
        all_named(entries),
        names_match(names, entries),
        item.has_file_name(),
        name@ == item.file_name_view(),
        out.len() == entries.len() + 1,
        forall|k: int| 0 <= k < j ==> #[trigger] out[k] == entries[k],
        forall|k: int| j <= k < entries.len() ==> out[k + 1] == entries[k],
        out[j] == item,
        out_names.len() == names.len() + 1,
        forall|k: int| 0 <= k < j ==> #[trigger] out_names[k] == names[k],
        forall|k: int| j <= k < names.len() ==> out_names[k + 1] == names[k],
        out_names[j] == name,
    ensures
        all_named(out),
        names_match(out_names, out),
{
    reveal(all_named);
    reveal(names_match);
    assert forall|k: int| 0 <= k < out.len() implies (#[trigger] out[k]).has_file_name() by {
        if k > j {
            assert(out[(k - 1) + 1] == entries[k - 1]);
        }
    }
    assert forall|k: int| 0 <= k < out.len() implies (#[trigger] out_names[k])@
        == out[k].file_name_view() by {
        if k > j {
            assert(out[(k - 1) + 1] == entries[k - 1]);
            assert(out_names[(k - 1) + 1] == names[k - 1]);
        }
    }
}

/// Whether `dst` is `src` rearranged by `perm` (`dst[k]` is `src[perm[k]]`, each
/// position of `src` used once), entries whose names compare equal keeping their order
/// in `src`.
pub open spec fn stable_rearrangement(src: Seq<FSRepr>, dst: Seq<FSRepr>, perm: Seq<int>) -> bool {
    &&& perm.len() == dst.len()
    &&& dst.len() == src.len()
    &&& forall|k: int| 0 <= k < dst.len() ==> 0 <= #[trigger] perm[k] < src.len() && dst[k] == src[perm[k]]
    &&& forall|k: int, l: int| #![trigger perm[k], perm[l]] 0 <= k < l < dst.len() ==> perm[k] != perm[l]
    &&& forall|k: int, l: int|
        #![trigger perm[k], perm[l]]
        0 <= k < l < dst.len() && natural_order_of(dst[k].file_name_view(), dst[l].file_name_view())
            == NaturalOrder::Equal ==> perm[k] < perm[l]
}

/// Whether `perm` places the entries of `out` in `original`, from position `low` on,
/// with equal names in their order there.
#[verifier::opaque]
pub open spec fn placed_stably(original: Seq<FSRepr>, out: Seq<FSRepr>, perm: Seq<int>, low: int) -> bool {
    &&& perm.len() == out.len()
    &&& forall|k: int| 0 <= k < out.len() ==> low <= #[trigger] perm[k] < original.len() && out[k] == original[perm[k]]
    &&& forall|k: int, l: int| #![trigger perm[k], perm[l]] 0 <= k < l < out.len() ==> perm[k] != perm[l]
    &&& forall|k: int, l: int|
        #![trigger perm[k], perm[l]]
        0 <= k < l < out.len() && natural_order_of(out[k].file_name_view(), out[l].file_name_view())
            == NaturalOrder::Equal ==> perm[k] < perm[l]
}

proof fn lemma_perm_insert(
    original: Seq<FSRepr>,
    before_out: Seq<FSRepr>,
    before_perm: Seq<int>,
    out: Seq<FSRepr>,
    item: FSRepr,
    item_name: Seq<char>,
    j: int,
    i: int,
) -> (perm: Seq<int>)
    requires
        0 <= i < original.len(),
        0 <= j <= before_out.len(),
        placed_stably(original, before_out, before_perm, i + 1),
        item == original[i],
        item_name == item.file_name_view(),
        out == before_out.insert(j, item),
        forall|k: int|
            0 <= k < j ==> natural_order_of((#[trigger] before_out[k]).file_name_view(), item_name)
                == NaturalOrder::Less,
    ensures
        placed_stably(original, out, perm, i),
{
    reveal(placed_stably);
    let perm = before_perm.insert(j, i);
    before_out.insert_ensures(j, item);
    before_perm.insert_ensures(j, i);
    assert forall|k: int| 0 <= k < out.len() implies i <= #[trigger] perm[k] < original.len() && out[k]
        == original[perm[k]] by {
        if k > j {
            assert(perm[k] == before_perm[k - 1]);
            assert(out[k] == before_out[k - 1]);
        }
    }
    assert forall|k: int, l: int| #![trigger perm[k], perm[l]] 0 <= k < l < out.len() implies perm[k]
        != perm[l] by {
        if k != j && l != j {
            let k0 = if k < j { k } else { k - 1 };
            let l0 = if l < j { l } else { l - 1 };
            assert(perm[k] == before_perm[k0]);
            assert(perm[l] == before_perm[l0]);
        } else if k == j {
            assert(perm[l] == before_perm[l - 1]);
        } else {
            assert(perm[k] == before_perm[k]);
        }
    }
    assert forall|k: int, l: int|
        #![trigger perm[k], perm[l]]
        0 <= k < l < out.len() && natural_order_of(out[k].file_name_view(), out[l].file_name_view())
            == NaturalOrder::Equal implies perm[k] < perm[l] by {
        if k != j && l != j {
            let k0 = if k < j { k } else { k - 1 };
            let l0 = if l < j { l } else { l - 1 };
            assert(perm[k] == before_perm[k0]);
            assert(perm[l] == before_perm[l0]);
            assert(out[k] == before_out[k0]);
            assert(out[l] == before_out[l0]);
        } else if k == j {
            assert(perm[l] == before_perm[l - 1]);
        } else {
            assert(out[k] == before_out[k]);
            assert(natural_order_of(before_out[k].file_name_view(), item_name) == NaturalOrder::Less);
        }
    }
    perm
}

proof fn lemma_placed_is_stable(original: Seq<FSRepr>, out: Seq<FSRepr>, perm: Seq<int>)
    requires
        placed_stably(original, out, perm, 0),
        out.len() == original.len(),
    ensures
        exists|p: Seq<int>| stable_rearrangement(original, out, p),
{
    reveal(placed_stably);
    assert(stable_rearrangement(original, out, perm));
}

/// Sorts entries by the natural order of their file names; entries whose names
/// compare equal keep their order.
pub fn sort_by_filename(entries: Vec<FSRepr>) -> (r: Vec<FSRepr>)
    requires
        all_named(entries@),
    ensures
        r@.to_multiset() == entries@.to_multiset(),
        all_named(r@),
        naturally_sorted(r@),
        exists|perm: Seq<int>| stable_rearrangement(entries@, r@, perm),
{
    let mut input = entries;
    let mut out: Vec<FSRepr> = Vec::new();
    let mut names: Vec<String> = Vec::new();
    let ghost original = input@;
    proof {
        reveal(all_named);
        reveal(naturally_sorted);
        reveal(names_match);
        vstd::seq_lib::to_multiset_len(out@);
        assert(out@.to_multiset() =~= vstd::multiset::Multiset::empty());
        assert(input@.to_multiset().add(out@.to_multiset()) =~= original.to_multiset());
    }
    let ghost mut perm: Seq<int> = Seq::empty();
    proof {
        reveal(placed_stably);
        assert(input@ =~= original.take(input@.len() as int));
    }
    while input.len() > 0
        invariant
            all_named(input@),
            all_named(out@),
            naturally_sorted(out@),
            names_match(names@, out@),
            input@.to_multiset().add(out@.to_multiset()) == original.to_multiset(),
            input@ == original.take(input@.len() as int),
            input@.len() + out@.len() == original.len(),
            placed_stably(original, out@, perm, input@.len() as int),
        decreases input@.len(),
    {
        let ghost before_input = input@;
        let ghost before_out = out@;
        let ghost before_perm = perm;
        let item = input.pop().unwrap();
        let ghost i = input@.len() as int;
        assert(input@ =~= original.take(i));
        assert(item == original[i]);
        assert(before_input =~= input@.push(item));
        proof {
            vstd::seq_lib::to_multiset_build(input@, item);
        }
        assert(item == before_input[before_input.len() - 1]);
        proof {
            reveal(all_named);
            assert(item.has_file_name());
            assert(all_named(input@));
        }
        let name = item.to_filename();
        let ghost item_name = name@;
        let j = insert_by_name(&mut out, &mut names, item, name);
        assert(input@.to_multiset().add(out@.to_multiset()) =~= before_input.to_multiset().add(
            before_out.to_multiset(),
        ));
        proof {
            perm = lemma_perm_insert(original, before_out, before_perm, out@, item, item_name, j as int, i);
        }
    }
    proof {
        vstd::seq_lib::to_multiset_len(input@);
        assert(input@.to_multiset() =~= vstd::multiset::Multiset::empty());
        assert(out@.to_multiset() =~= original.to_multiset());
        lemma_placed_is_stable(original, out@, perm);
    }
    out
}

/// Sorts the children of a directory by the natural order of their file names, as
/// the directory tree is built; `Err` with the entries unchanged when some entry has
/// no file name.
pub fn sort_children(entries: Vec<FSRepr>) -> (r: Result<Vec<FSRepr>, Vec<FSRepr>>)
    ensures
        match r {
            Ok(sorted) => {
                &&& all_named(entries@)
                &&& sorted@.to_multiset() == entries@.to_multiset()
                &&& naturally_sorted(sorted@)
                &&& exists|perm: Seq<int>| stable_rearrangement(entries@, sorted@, perm)
            },
            Err(unchanged) => !all_named(entries@) && unchanged@ == entries@,
        },
{
    let mut i: usize = 0;
    while i < entries.len()
        invariant
            i <= entries@.len(),
            forall|k: int| 0 <= k < i ==> (#[trigger] entries@[k]).has_file_name(),
        decreases entries@.len() - i,
    {
        match entries[i].file_name() {
            Some(_) => {},
            None => {
                assert(!all_named(entries@)) by {
                    reveal(all_named);
                    assert(!entries@[i as int].has_file_name());
                }
                return Err(entries);
            },
        }
        i += 1;
    }
    assert(all_named(entries@)) by {
        reveal(all_named);
    }
    Ok(sort_by_filename(entries))
}

} // verus!
