//! The build requirements (pragmas and outside crates) that a set of
//! translated modules needs, merged without repetition and then put in
//! canonical order.

use crate::naming::{dashes_to_underscores, replace_dashes};
use indexmap::IndexSet;
use vstd::prelude::*;

verus! {

#[verifier::external_type_specification]
#[verifier::external_body]
#[verifier::reject_recursive_types(T)]
#[verifier::reject_recursive_types(S)]
pub struct ExIndexSet<T, S>(IndexSet<T, S>);

/// A crate that translated code may need, in canonical order.
#[derive(Debug, Copy, Clone, PartialEq, Eq, Structural, Hash, PartialOrd, Ord)]
pub enum ExternCrate {
    C2RustBitfields,
    C2RustAsmCasts,
    F128,
    NumTraits,
    Memoffset,
    Libc,
}

/// The position of a crate in the canonical order.
pub open spec fn crate_rank(c: ExternCrate) -> u8 {
    match c {
        ExternCrate::C2RustBitfields => 0,
        ExternCrate::C2RustAsmCasts => 1,
        ExternCrate::F128 => 2,
        ExternCrate::NumTraits => 3,
        ExternCrate::Memoffset => 4,
        ExternCrate::Libc => 5,
    }
}

impl ExternCrate {
    pub fn rank(self) -> (r: u8)
        ensures
            r == crate_rank(self),
            r < 6,
    {
        match self {
            ExternCrate::C2RustBitfields => 0,
            ExternCrate::C2RustAsmCasts => 1,
            ExternCrate::F128 => 2,
            ExternCrate::NumTraits => 3,
            ExternCrate::Memoffset => 4,
            ExternCrate::Libc => 5,
        }
    }

    pub fn from_rank(rank: u8) -> (r: ExternCrate)
        requires
            rank < 6,
        ensures
            crate_rank(r) == rank,
    {
        if rank == 0 {
            ExternCrate::C2RustBitfields
        } else if rank == 1 {
            ExternCrate::C2RustAsmCasts
        } else if rank == 2 {
            ExternCrate::F128
        } else if rank == 3 {
            ExternCrate::NumTraits
        } else if rank == 4 {
            ExternCrate::Memoffset
        } else {
            ExternCrate::Libc
        }
    }
}

/// `a` comes strictly before `b` in the order of their code points.
pub open spec fn text_lt(a: Seq<char>, b: Seq<char>) -> bool
    decreases a.len(),
{
    if a.len() == 0 {
        b.len() > 0
    } else if b.len() == 0 {
        false
    } else if a[0] != b[0] {
        (a[0] as u32) < (b[0] as u32)
    } else {
        text_lt(a.drop_first(), b.drop_first())
    }
}

/// Pairs of texts in lexicographic order.
pub open spec fn pair_lt(a: (Seq<char>, Seq<char>), b: (Seq<char>, Seq<char>)) -> bool {
    text_lt(a.0, b.0) || (a.0 == b.0 && text_lt(a.1, b.1))
}

/// `s` with each item of `items` appended, in order, unless already there.
pub open spec fn absorb<T>(s: Seq<T>, items: Seq<T>) -> Seq<T>
    decreases items.len(),
{
    if items.len() == 0 {
        s
    } else {
        let r = absorb(s, items.drop_last());
        if r.contains(items.last()) {
            r
        } else {
            r.push(items.last())
        }
    }
}

/// The `(key, value)` pairs that a list of pragmas names, in order.
pub open spec fn pragma_pairs(pv: Seq<(&'static str, Vec<&'static str>)>) -> Seq<(Seq<char>, Seq<char>)>
    decreases pv.len(),
{
    if pv.len() == 0 {
        Seq::empty()
    } else {
        pragma_pairs(pv.drop_last()) + pv.last().1@.map_values(|v: &'static str| (pv.last().0@, v@))
    }
}

/// The ranks of a list of crates, in order.
pub open spec fn crate_ranks(cs: Seq<ExternCrate>) -> Seq<u8> {
    cs.map_values(|c: ExternCrate| crate_rank(c))
}

/// The entries of a set of pragmas, in the set's order, as text.
pub uninterp spec fn pragma_entries(s: IndexSet<(&'static str, &'static str)>) -> Seq<(Seq<char>, Seq<char>)>;

/// The entries of a set of crate ranks, in the set's order.
pub uninterp spec fn rank_entries(s: IndexSet<u8>) -> Seq<u8>;

/// Relies on `IndexSet::new`: a set with no entries.
#[verifier::external_body]
fn new_pragma_set() -> (r: IndexSet<(&'static str, &'static str)>)
    ensures
        pragma_entries(r) == Seq::<(Seq<char>, Seq<char>)>::empty(),
{
    IndexSet::new()
}

/// Relies on `IndexSet::new`: a set with no entries.
#[verifier::external_body]
fn new_rank_set() -> (r: IndexSet<u8>)
    ensures
        rank_entries(r) == Seq::<u8>::empty(),
{
    IndexSet::new()
}

/// Relies on `IndexSet::insert`: an entry equal to one already there leaves
/// the set as it was; any other goes at the end.
#[verifier::external_body]
fn insert_pragma(s: &mut IndexSet<(&'static str, &'static str)>, key: &'static str, value: &'static str)
    ensures
        pragma_entries(*final(s)) == if pragma_entries(*old(s)).contains((key@, value@)) {
            pragma_entries(*old(s))
        } else {
            pragma_entries(*old(s)).push((key@, value@))
        },
{
    s.insert((key, value));
}

/// Relies on `IndexSet::insert`: an entry equal to one already there leaves
/// the set as it was; any other goes at the end.
#[verifier::external_body]
fn insert_rank(s: &mut IndexSet<u8>, rank: u8)
    ensures
        rank_entries(*final(s)) == if rank_entries(*old(s)).contains(rank) {
            rank_entries(*old(s))
        } else {
            rank_entries(*old(s)).push(rank)
        },
{
    s.insert(rank);
}

/// Relies on `IndexSet::sort`: the same entries, in the order of `Ord` on
/// pairs of `str`, which compares the texts lexicographically by code point.
#[verifier::external_body]
fn sort_pragmas(s: &mut IndexSet<(&'static str, &'static str)>)
    ensures
        pragma_entries(*final(s)).to_multiset() == pragma_entries(*old(s)).to_multiset(),
        forall|i: int, j: int|
            0 <= i < j < pragma_entries(*final(s)).len() ==> !pair_lt(
                #[trigger] pragma_entries(*final(s))[j],
                #[trigger] pragma_entries(*final(s))[i],
            ),
{
    s.sort();
}

/// Relies on `IndexSet::sort`: the same entries, in increasing order.
#[verifier::external_body]
fn sort_ranks(s: &mut IndexSet<u8>)
    ensures
        rank_entries(*final(s)).to_multiset() == rank_entries(*old(s)).to_multiset(),
        forall|i: int, j: int|
            0 <= i < j < rank_entries(*final(s)).len() ==> #[trigger] rank_entries(*final(s))[i]
                <= #[trigger] rank_entries(*final(s))[j],
{
    s.sort();
}

/// Relies on `IndexSet::iter`: the entries in the set's order.
#[verifier::external_body]
fn pragma_list(s: &IndexSet<(&'static str, &'static str)>) -> (r: Vec<(&'static str, &'static str)>)
    ensures
        r@.len() == pragma_entries(*s).len(),
        forall|k: int| 0 <= k < r@.len() ==> (#[trigger] r@[k].0@, r@[k].1@) == pragma_entries(*s)[k],
{
    s.iter().cloned().collect()
}

/// Relies on `IndexSet::iter`: the entries in the set's order.
#[verifier::external_body]
fn rank_list(s: &IndexSet<u8>) -> (r: Vec<u8>)
    ensures
        r@ == rank_entries(*s),
{
    s.iter().cloned().collect()
}

/// Pairs of strings as pairs of texts.
pub open spec fn pair_texts(v: Seq<(&'static str, &'static str)>) -> Seq<(Seq<char>, Seq<char>)> {
    v.map_values(|p: (&'static str, &'static str)| (p.0@, p.1@))
}

proof fn lemma_absorb_unique<T>(s: Seq<T>, items: Seq<T>)
    requires
        s.no_duplicates(),
    ensures
        absorb(s, items).no_duplicates(),
        forall|x: T| #[trigger] absorb(s, items).contains(x) <==> s.contains(x) || items.contains(x),
    decreases items.len(),
{
    if items.len() > 0 {
        let rest = items.drop_last();
        lemma_absorb_unique(s, rest);
        let r = absorb(s, rest);
        assert forall|x: T| #[trigger] absorb(s, items).contains(x) <==> s.contains(x) || items.contains(x) by {
            if rest.contains(x) {
                let k = choose|k: int| 0 <= k < rest.len() && rest[k] == x;
                assert(items[k] == x);
            }
            if items.contains(x) && x != items.last() {
                let k = choose|k: int| 0 <= k < items.len() && items[k] == x;
                assert(k < rest.len() && rest[k] == x);
            }
            if !r.contains(items.last()) {
                assert(r.push(items.last()).last() == items.last());
                if r.contains(x) {
                    let k = choose|k: int| 0 <= k < r.len() && r[k] == x;
                    assert(r.push(items.last())[k] == x);
                }
                if r.push(items.last()).contains(x) && x != items.last() {
                    let k = choose|k: int| 0 <= k < r.len() + 1 && r.push(items.last())[k] == x;
                    assert(r[k] == x);
                }
            }
        }
    }
}

proof fn lemma_same_multiset<T>(a: Seq<T>, b: Seq<T>)
    requires
        a.no_duplicates(),
        a.to_multiset() == b.to_multiset(),
    ensures
        b.no_duplicates(),
        forall|x: T| a.contains(x) <==> b.contains(x),
{
    a.lemma_multiset_has_no_duplicates();
    b.lemma_multiset_has_no_duplicates_conv();
    a.to_multiset_ensures();
    b.to_multiset_ensures();
    assert forall|x: T| a.contains(x) <==> b.contains(x) by {
        assert(a.contains(x) <==> a.to_multiset().count(x) > 0);
        assert(b.contains(x) <==> b.to_multiset().count(x) > 0);
    }
}

/// The pragmas and crates gathered so far, each once, in the order in which
/// they were first met.
pub struct Requirements {
    pragmas: IndexSet<(&'static str, &'static str)>,
    crates: IndexSet<u8>,
}

impl Requirements {
    /// The pragmas gathered, as text.
    pub closed spec fn pragma_view(&self) -> Seq<(Seq<char>, Seq<char>)> {
        pragma_entries(self.pragmas)
    }

    /// The ranks of the crates gathered.
    pub closed spec fn rank_view(&self) -> Seq<u8> {
        rank_entries(self.crates)
    }

    /// Each entry once, and every rank that of a crate.
    pub closed spec fn well_formed(&self) -> bool {
        &&& self.pragma_view().no_duplicates()
        &&& self.rank_view().no_duplicates()
        &&& forall|k: int| 0 <= k < self.rank_view().len() ==> #[trigger] self.rank_view()[k] < 6
    }

    pub fn new() -> (r: Self)
        ensures
            r.well_formed(),
            r.pragma_view() == Seq::<(Seq<char>, Seq<char>)>::empty(),
            r.rank_view() == Seq::<u8>::empty(),
    {
        Requirements { pragmas: new_pragma_set(), crates: new_rank_set() }
    }

    /// Adds what one translated module needs.
    pub fn add_unit(&mut self, pragmas: &Vec<(&'static str, Vec<&'static str>)>, crates: &Vec<ExternCrate>)
        requires
            old(self).well_formed(),
        ensures
            final(self).well_formed(),
            final(self).pragma_view() == absorb(old(self).pragma_view(), pragma_pairs(pragmas@)),
            final(self).rank_view() == absorb(old(self).rank_view(), crate_ranks(crates@)),
    {
        let ghost p0 = self.pragma_view();
        let ghost r0 = self.rank_view();
        let mut i: usize = 0;
        while i < pragmas.len()
            invariant
                i <= pragmas@.len(),
                self.crates == old(self).crates,
                self.pragma_view() == absorb(p0, pragma_pairs(pragmas@.subrange(0, i as int))),
            decreases pragmas@.len() - i,
        {
            let key = pragmas[i].0;
            let values = &pragmas[i].1;
            let ghost done = pragma_pairs(pragmas@.subrange(0, i as int));
            let mut j: usize = 0;
            assert(done + values@.subrange(0, 0).map_values(|v: &'static str| (key@, v@)) =~= done);
            while j < values.len()
                invariant
                    j <= values@.len(),
                    self.crates == old(self).crates,
                    self.pragma_view() == absorb(
                        p0,
                        done + values@.subrange(0, j as int).map_values(|v: &'static str| (key@, v@)),
                    ),
                decreases values@.len() - j,
            {
                let ghost items = done + values@.subrange(0, j as int).map_values(|v: &'static str| (key@, v@));
                let ghost next = done + values@.subrange(0, j + 1).map_values(|v: &'static str| (key@, v@));
                assert(next.drop_last() =~= items);
                assert(next.last() == (key@, values@[j as int]@));
                insert_pragma(&mut self.pragmas, key, values[j]);
                j += 1;
            }
            assert(pragmas@.subrange(0, i + 1).drop_last() =~= pragmas@.subrange(0, i as int));
            assert(values@.subrange(0, values@.len() as int) =~= values@);
            i += 1;
        }
        assert(pragmas@.subrange(0, pragmas@.len() as int) =~= pragmas@);
        let mut i: usize = 0;
        while i < crates.len()
            invariant
                i <= crates@.len(),
                self.pragma_view() == absorb(p0, pragma_pairs(pragmas@)),
                self.rank_view() == absorb(r0, crate_ranks(crates@.subrange(0, i as int))),
            decreases crates@.len() - i,
        {
            assert(crate_ranks(crates@.subrange(0, i + 1)).drop_last() =~= crate_ranks(crates@.subrange(0, i as int)));
            insert_rank(&mut self.crates, crates[i].rank());
            i += 1;
        }
        assert(crates@.subrange(0, crates@.len() as int) =~= crates@);
        proof {
            lemma_absorb_unique(p0, pragma_pairs(pragmas@));
            lemma_absorb_unique(r0, crate_ranks(crates@));
            assert forall|k: int| 0 <= k < self.rank_view().len() implies #[trigger] self.rank_view()[k] < 6 by {
                let x = self.rank_view()[k];
                assert(self.rank_view().contains(x));
                if !r0.contains(x) {
                    let m = choose|m: int| 0 <= m < crate_ranks(crates@).len() && crate_ranks(crates@)[m] == x;
                    assert(x == crate_rank(crates@[m]));
                } else {
                    let m = choose|m: int| 0 <= m < r0.len() && r0[m] == x;
                }
            }
        }
    }

    /// The pragmas and crates gathered, each once, in canonical order.
    pub fn into_sorted(self) -> (r: (Vec<(&'static str, &'static str)>, Vec<ExternCrate>))
        requires
            self.well_formed(),
        ensures
            pair_texts(r.0@).no_duplicates(),
            forall|x: (Seq<char>, Seq<char>)| #[trigger] pair_texts(r.0@).contains(x) <==> self.pragma_view().contains(x),
            forall|i: int, j: int|
                0 <= i < j < r.0@.len() ==> !pair_lt(
                    #[trigger] pair_texts(r.0@)[j],
                    #[trigger] pair_texts(r.0@)[i],
                ),
            crate_ranks(r.1@).no_duplicates(),
            forall|x: u8| #[trigger] crate_ranks(r.1@).contains(x) <==> self.rank_view().contains(x),
            forall|i: int, j: int|
                0 <= i < j < r.1@.len() ==> crate_rank(#[trigger] r.1@[i]) < crate_rank(#[trigger] r.1@[j]),
    {
        let ghost p0 = self.pragma_view();
        let ghost r0 = self.rank_view();
        let mut pragmas = self.pragmas;
        let mut crates = self.crates;
        sort_pragmas(&mut pragmas);
        sort_ranks(&mut crates);
        let pragma_vec = pragma_list(&pragmas);
        let ranks = rank_list(&crates);
        proof {
            lemma_same_multiset(p0, pragma_entries(pragmas));
            lemma_same_multiset(r0, rank_entries(crates));
            assert(pair_texts(pragma_vec@) =~= pragma_entries(pragmas));
            assert forall|k: int| 0 <= k < ranks@.len() implies #[trigger] ranks@[k] < 6 by {
                assert(rank_entries(crates).contains(ranks@[k]));
                assert(r0.contains(ranks@[k]));
            }
        }
        let mut crate_vec: Vec<ExternCrate> = Vec::new();
        let mut k: usize = 0;
        while k < ranks.len()
            invariant
                k <= ranks@.len(),
                forall|m: int| 0 <= m < ranks@.len() ==> #[trigger] ranks@[m] < 6,
                crate_ranks(crate_vec@) == ranks@.subrange(0, k as int),
            decreases ranks@.len() - k,
        {
            let c = ExternCrate::from_rank(ranks[k]);
            let ghost before = crate_vec@;
            crate_vec.push(c);
            assert(crate_vec@ == before.push(c));
            assert(crate_ranks(crate_vec@) =~= crate_ranks(before).push(crate_rank(c)));
            assert(crate_ranks(crate_vec@) =~= ranks@.subrange(0, k + 1));
            k += 1;
        }
        assert(crate_ranks(crate_vec@) =~= ranks@);
        proof {
            assert forall|i: int, j: int| 0 <= i < j < crate_vec@.len() implies crate_rank(
                #[trigger] crate_vec@[i],
            ) < crate_rank(#[trigger] crate_vec@[j]) by {
                assert(crate_ranks(crate_vec@)[i] == crate_rank(crate_vec@[i]));
                assert(crate_ranks(crate_vec@)[j] == crate_rank(crate_vec@[j]));
            }
        }
        (pragma_vec, crate_vec)
    }
}

/// What a build manifest says of a crate.
#[derive(Debug)]
pub struct ExternCrateDetails {
    pub name: &'static str,
    pub ident: String,
    pub macro_use: bool,
    pub version: &'static str,
}

impl ExternCrateDetails {
    pub fn new(name: &'static str, version: &'static str, macro_use: bool) -> (r: Self)
        ensures
            r.name == name,
            r.version == version,
            r.macro_use == macro_use,
            r.ident@ == dashes_to_underscores(name@),
    {
        ExternCrateDetails { name, ident: replace_dashes(name), macro_use, version }
    }
}

/// The package name of a crate.
pub open spec fn crate_package(c: ExternCrate) -> Seq<char> {
    match c {
        ExternCrate::C2RustBitfields => "c2rust-bitfields"@,
        ExternCrate::C2RustAsmCasts => "c2rust-asm-casts"@,
        ExternCrate::F128 => "f128"@,
        ExternCrate::NumTraits => "num-traits"@,
        ExternCrate::Memoffset => "memoffset"@,
        ExternCrate::Libc => "libc"@,
    }
}

/// The version requirement written for a crate.
pub open spec fn crate_version(c: ExternCrate) -> Seq<char> {
    match c {
        ExternCrate::C2RustBitfields => "0.3"@,
        ExternCrate::C2RustAsmCasts => "0.2"@,
        ExternCrate::F128 => "0.2"@,
        ExternCrate::NumTraits => "0.2"@,
        ExternCrate::Memoffset => "0.5"@,
        ExternCrate::Libc => "0.2"@,
    }
}

/// Whether the crate's macros are imported.
pub open spec fn crate_macro_use(c: ExternCrate) -> bool {
    match c {
        ExternCrate::F128 | ExternCrate::Libc => false,
        _ => true,
    }
}

impl ExternCrate {
    /// The manifest entry for this crate.
    pub fn details(self) -> (r: ExternCrateDetails)
        ensures
            r.name@ == crate_package(self),
            r.version@ == crate_version(self),
            r.macro_use == crate_macro_use(self),
            r.ident@ == dashes_to_underscores(crate_package(self)),
    {
        match self {
            ExternCrate::C2RustBitfields => ExternCrateDetails::new("c2rust-bitfields", "0.3", true),
            ExternCrate::C2RustAsmCasts => ExternCrateDetails::new("c2rust-asm-casts", "0.2", true),
            ExternCrate::F128 => ExternCrateDetails::new("f128", "0.2", false),
            ExternCrate::NumTraits => ExternCrateDetails::new("num-traits", "0.2", true),
            ExternCrate::Memoffset => ExternCrateDetails::new("memoffset", "0.5", true),
            ExternCrate::Libc => ExternCrateDetails::new("libc", "0.2", false),
        }
    }
}

} // verus!
